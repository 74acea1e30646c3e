# bombini (verified core)

The verified library behind bombini's rule configuration and procmon probes.

- `src/text.rs`: character classes, identifier names, the tokenizer of
  condition texts, decimal text of integers.
- `src/error.rs`: the errors of expansion and the texts that report them.
- `src/table.rs`: `NameTable`, names mapped to texts in definition order.
- `src/macros.rs`: list substitution, macro expansion (`resolve`,
  `expand_str`) with cycle detection, and their laws.
- `src/yaml.rs`: the YAML values a configuration is made of, and what makes
  one valid (no mapping holds a key twice).
- `src/config.rs`: reading `lists` and `macros`, expanding the `scope` and
  `event` predicates (`expand_config`).
- `src/procmon.rs`, `src/co_re.rs`: what the kernel probes compute from the
  fields they read.
- `app/`: conversion from and to `serde_yml` documents, the kernel reads
  themselves, and the kernel version that the loader hands the probes.
