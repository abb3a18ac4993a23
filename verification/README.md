# avio23

The verified core of Avio23, an integrated modular avionics teaching
platform: five ARINC 653 computing modules (a simulation gateway and the
landing gear, fuel, air conditioning and electrical CPMs) linked over a
simulated AFDX network.

`src/` is the library, verified with Verus:

- `config` checks a CPM hypervisor configuration (`cpm_f.yaml`): the
  major frame, each partition's period and time window, overlaps, the
  `fuel_controller` partition, and the sampling channels (each one that
  delivers somewhere must have a declared source partition). It reads YAML
  with serde_yaml into the plain `yaml::Yaml` tree.
- `text` holds the character-level work: trimming, decimal numbers and
  durations such as `40ms`.
- `fuel`, `electrical`, `landing_gear` and `gateway` hold the decisions
  that the partitions take every frame.

`app/` is the program around it: the fuel controller test bench with its
flight scenarios, and the partition images that run under the a653rs-linux
hypervisor, with their sampling ports, UDP sockets and floating-point
sensor arithmetic.
