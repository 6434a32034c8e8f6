# Baumaus

Baumaus is a script-first architectural CAD for the terminal: a plan script
on the left, a live 3D preview on the right. The script accepts `wall`,
`door`, `window` and `project` calls in millimetres:

```text
wall([0, 0], [6000, 0], thickness = 300);
door("wall-001", offset = 1200, width = 900);
window("wall-002", offset = 900, width = 1200, sill = 900);
```

## Layout

- `src/` is the verified library (Verus):
  - `text.rs`: trimming, prefixes, searching and line splitting over characters;
  - `numeral.rs`: the decimal numerals of the script, their grammar and their
    exact order by value;
  - `parser.rs`: the script language; `compile` builds a `Draft` of the plan,
    and `Draft::settle` applies the verdict of whether each opening fits inside
    its wall;
  - `domain.rs`: the plan model and its bounds;
  - `mesh.rs`: the face lines of each prism of the OBJ preview;
  - `cursor.rs`: cursor steps over the UTF-8 bytes of a line;
  - `editor.rs`: the script editor and what each key does.
- `app/` is the terminal program: drawing, the preview's geometry, saving
  JSON, the floating-point checks and the event loop.
- `tests/` exercises the library.

Numbers are kept in the library as the numerals the script wrote; the program
reads them as floating-point millimetres for geometry.
