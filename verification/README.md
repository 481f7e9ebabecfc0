# cloud_netconfig

Network configuration for cloud instances with several interfaces.

- `src/` is the verified library. It reads what the kernel reports about
  addresses, links, routes and routing policy rules into plain values, and
  decides what to ask of the kernel: it splits and reads `address/prefix`
  texts, lists a link's IPv4 addresses, keeps the table of links keyed by
  hardware address, finds gateways, tells whether a rule is installed, and
  judges the kernel's answers to add requests. Every function carries a
  contract that Verus proves.
- `app/` holds the rtnetlink requests, the awaits, the conversions between
  netlink messages and the library's types, the IPv6 reading of addresses,
  and the cloud-provider trait.
- `tests/` runs the library on concrete values.
