# registry_index

The index of a package registry: which versions of a package there are, which of
them may be offered to whoever asks, and which files of the index are worth
fetching in advance.

An index holds one file per package, with one JSON blob per line and version. To
parse all of them each time is slow, so what was learned from a file is kept in
a cache file, in which the version stands in front of each blob; a blob is then
parsed only if its version is asked for.

The library in `src/` is verified with Verus:

* `version`: versions and requirements, read and matched by `semver`
* `text`, `split`: texts and byte strings; splitting rests on `memchr`
* `spelling`: the spellings of a name that differ in hyphens and underscores
* `package`: packages, dependencies, summaries, and the lines that give them
* `cache`: the format of the cache file
* `summaries`: the summaries of one package, parsed as late as possible
* `precise`: requests to move one package to one version
* `query`: what is offered to those who ask for a package
* `prefetch`: the walk over transitive dependencies
* `index`: the index as a whole
* `remote`: what is known of a registry that is a git repository

What a module promises beyond single calls stands in its functions whose names
begin with `law_`.

`app/` is ordinary Rust around the library: it reads and writes the files, reads
the JSON, and talks to git.
