# cookiecloud_sync

Fetches the encrypted cookie record of a user from a CookieCloud server,
decrypts it, and writes it to local cookie files (Netscape, JSON, or both).

## Layout

- `src/` — the library, verified with Verus:
  - `config.rs`: export specs (`[domains:]<path>[:format]`), their parsing from
    the command line and from `EXPORT_SPECS`, the merge in which the command
    line wins on a shared path, output-directory resolution, and `build_config`.
  - `decrypt.rs`: the `legacy` (OpenSSL `Salted__`, EVP_BytesToKey) and
    `aes-128-cbc-fixed` schemes, with AES, MD5, base64 and the random salt
    called through small trusted wrappers.
  - `domains.rs`: domain sets and matching with leading dots ignored.
  - `paths.rs`: path components, their order, joining, and the `.json` sibling.
  - `client.rs`, `sync.rs`: the decisions of a fetch, of a sync round and of
    the loop around it.
  - `cookiefile.rs`: the Netscape cookie file text.
  - `text.rs`: character-level helpers shared by the above.
- `tests/` — tests of the library.
- `app/` — the program: command-line parsing, HTTP, JSON, file writing and
  the sync loop, calling the library for every decision.
