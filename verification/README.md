# mTLS Identity Resolver

Turns the client-certificate details that a TLS terminator forwards in request
headers into a caller identity. The library in `src/` is verified with Verus:
each function that is written out there states what it returns for every input
that its `requires` admits, and Verus proves it. One public function has a
`requires`: `from_validated_config` takes a valid configuration. Derived impls
have no contract.

The configured sources are walked in their order. The first whose details name a
subject decides who the caller is. Where no source gives details, another
identity provider may know the caller; where details are given but none name a
subject, the request is refused.

## Layout

- `src/config.rs`: the configuration, and when it may be used
- `src/xfcc.rs`: the hops and fields of an `X-Forwarded-Client-Cert` header
- `src/source.rs`: the certificate details that one source gives
- `src/subject.rs`: the subject that certificate details name
- `src/resolution.rs`: from headers to an identity, a refusal, or neither
- `src/plugin.rs`: the provider with its manifest
- `src/text.rs`, `src/string_map.rs`: text and maps keyed by text
- `src/xfcc_laws.rs`, `src/subject_laws.rs`, `src/resolution_laws.rs`: what holds
  of all headers, subjects and resolutions
- `tests/`: the library on concrete values
- `app/`: JSON, logs, metrics and the gateway's plugin interface

## What is trusted

Verus believes, without proof, the contracts that `src/text.rs` gives to
`str::trim`, `str::eq_ignore_ascii_case`, `str::to_lowercase`,
`core::str::from_utf8` and `String::push`, and those of vstd. Two outside types
are opaque to it: `core::str::Utf8Error` and `serde_json::Error`. `app/` is
ordinary Rust.

## Security

Everything here arrives in a request header, which anyone who reaches the gateway
directly can forge. The trust level therefore defaults to `header_asserted`. Raise
it to `verified` only where a trusted proxy terminates mutual TLS in front of the
gateway and strips inbound copies of the configured headers.
