# pi_rs_host

The decision logic of a Lua-scripted agent host, written in Verus and
proved against its contracts: package sources and their settings, resource
discovery and selection, project trust, the scope kernel and its
lifecycle, effect accounting and requests, configuration values, JSON
schema checks, and a line/word diff with unified patches.

The host's I/O (files, processes, the network, the Lua VM) runs around
these functions: it hands them plain values and carries out what they
return. Outside crates (`url`, `serde_json`, `serde_yaml`, `sha2`,
`base64`, `ring`) are called through small trusted wrappers whose
contracts name or state what the call returns.

Layout: `src/` holds one module per area (`lib.rs` lists them), `tests/`
holds one test file per area.
