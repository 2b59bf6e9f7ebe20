# pve-meta-traefik

Traefik reads its routes from the guests of a Proxmox VE cluster. Each guest's
Traefik configuration lives in its pve-meta document; this service makes one
dynamic configuration document of all of them, which Traefik polls through its
HTTP provider.

The crate has two parts.

* `src/` is the library: rendering, merging, the choice of addresses, what to ask
  the cluster, how its replies are read and what Traefik is answered, written in
  Verus and proved against its contracts. What holds across functions is proved
  in `src/laws/`: that a port on a router is the same as the service it stands
  for, that every rendered server has its endpoint, that nothing else is
  touched, that of two guests which declare one name the lower vmid wins, that a
  guest which cannot be read fails the poll.
* `app/` is the service around it: the command line, the parsing of YAML and
  JSON, HTTP and TLS, the clock and the log. It asks the library what to do
  next, does it, and hands back what came of it.

`tests/` runs the library on examples.

## What is trusted

The proofs rest on a few functions that are called as they are, each with its
contract beside it: `String::push` and `char::is_whitespace` of std
(`src/text.rs`), the parsing of addresses and the notation of IPv6 in std and
the networks of ipnet (`src/address.rs`), the `Debug` form of a `str`
(`src/problem.rs`), and what reqwest takes for a header's value (`src/pve.rs`).

## A guest's subtree

It is Traefik's file-provider format, verbatim, with four additions:

* A server with `port` (and optionally `scheme`) instead of `url` or `address`
  gets it from the guest's address.
* `port` (and optionally `scheme`) on a router: the router's service is one such
  server.
* `${ip}`, `${name}` and `${vmid}` are filled in, in any string.
* `ip` at the top is the guest's address, trusted as given.

```yaml
traefik:
  http:
    routers:
      grafana:
        rule: Host(`grafana.example.net`)
        port: 3000
```
