# sarena

The control-plane core of the sarena eBPF networking dataplane, written in
Verus. The functions in `src/` are verified against their contracts, with
two kinds of exception: the wrappers around outside calls (marked
`#[verifier::external_body]`), whose contracts are believed and described
in their doc comments; and implementations of `BpfBackend`, which are
trusted to keep the model of calls and pins that the trait describes.

## Layout

- `src/bitmap.rs`, `src/host_scope.rs`, `src/ipam.rs`: address management
  (a bitmap allocator, a per-CIDR host allocator, and the IPAM service with
  owners, excluded addresses and rollback).
- `src/ip.rs`: addresses and CIDR blocks, their parsing (`ipnet`) and text.
- `src/endpoint.rs`, `src/pin.rs`, `src/loader.rs`: endpoint kinds, the
  layout of pins under bpffs, and the loader that attaches and reconciles
  endpoints through a `BpfBackend`.
- `src/tlv.rs`, `src/report.rs`, `src/runner.rs`: reading the results that
  in-kernel tests write, rendering their logs, and grouping test programs.
- `src/cni.rs`, `src/services.rs`, `src/kubernetes.rs`: the decisions of the
  CNI plugin, the daemon/endpoint/IPAM service stand-ins, and the
  AddressPool admission check.
- `src/shared.rs`, `src/text.rs`: map key/value types shared with the kernel
  side, and string helpers.
- `app/`: ordinary Rust around the library: `CNI_ARGS` JSON handling,
  printing test reports, and a thread that runs the loader.
- `tests/`: tests of the library's public functions.

Laws that relate several functions are public proof functions named
`law_*` (and a few `lemma_*` that state invariants of a type).
