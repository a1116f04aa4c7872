# modux

Type generator for the [Modux](https://github.com/victorcarmo2003/ModuxV3) framework for Roblox.

You write the body of a module. `modux` writes the type leaf of the module
(`ModuxTypes/<side>/<Id>.luau`) and the Manifest of each side, so that `self` is typed without
anything more to annotate. There is no inference: the generator reads the annotations that are
there, and widens literals.

## Commands

```sh
modux generate    # write everything once
modux watch       # write again whatever changes
modux check       # write nothing; fail where something is out of date
modux list        # the modules and what they require
modux fix         # turn `Foo/init.luau` into `Foo.luau` where the folder holds nothing else
modux extract F   # what is read from one module, as JSON
```

## Layout

`src/` is the library, verified with Verus. Its contracts say what every function returns.

| module | what it is about |
|---|---|
| `text`, `table`, `paths` | text, sorted maps and sets, paths with forward slashes |
| `json`, `rojo`, `source`, `agree` | the instance tree, from a project file or from a sourcemap, and that the two agree |
| `tree`, `syntax` | a parsed Luau file as plain values, and the text of its nodes |
| `module`, `extract` | what is read from a module |
| `layout`, `emit`, `manifest` | what is written for a module and for a side |
| `scan` | which files are modules, and which of them can leave their folder |
| `state`, `pass` | the cache, what files are to hold, what a check and a sweep find |
| `plan`, `effects` | what a pass does to the disk, and what is left to do for the next |
| `watch` | what has changed, and what a watcher does about it |

The `law_` functions are properties of the whole: what is read back after a write, what an
operation leaves alone, what two ways of saying a thing have in common.

What is believed and not proved is marked `external_body` or `assume_specification`, with a
comment that names the function behind it: the Luau lexer and parser of `full_moon`, the JSON reader of
`serde_json`, and from the standard library `String::push` and the quoting of a string.

`app/` is the command line: it reads and writes files and starts other programs.
