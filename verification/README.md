# contexting_core

Template-based prompt assembly, verified with Verus. A base prompt holds
`{{slot}}` placeholders; ordered injectors either fill their slot (when the
template holds it) or have their non-empty text appended after a blank line;
the slots that remain are filled from the context (strings and numbers only).

- `src/text.rs` — the character-sequence model: occurrence, leftmost
  non-overlapping replacement, joining.
- `src/slot.rs` — the placeholder grammar, `extract_slots`, `fill_slot`.
- `src/types.rs` — `ContextValue`, the `Context` map, `Injector`.
- `src/injector.rs` — `create_injector` and `InjectorError`.
- `src/assemble.rs` — `apply_injection`, `apply_base_rules`, `assemble_with`,
  `assemble`, and the laws of assembly.
- `app/` — JSON conversion, an error type with `Display`, and the Python
  (pyo3) and JavaScript (wasm-bindgen) bindings.
