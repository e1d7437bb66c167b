# findupdate

Looks for new versions of packages that are described by RPM spec files, reports them, and
writes them into the spec files.

`src/` is the verified library. It does no I/O:

- `text`: strings as sequences of characters.
- `context`: a table from text to text.
- `parser`: the update configuration of a package, `type::key=value;key=value;`.
- `patterns`: the regular expressions for spec files, and where the `Version` field stands.
- `macros`: which macro definitions a version depends on.
- `spec_file`: how the version of a spec file is found out with `rpmspec`, step by step.
- `worker`: the check of one package.
- `select`: which spec files are checked.
- `report`: what is reported of the checks.

`app/` is the program around it: arguments, files, processes, threads and printing.

`tests/` runs the library with the crates it calls.
