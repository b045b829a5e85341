# thearf

The window-management core of the Thearf tiling Wayland compositor, written
in Verus with its behaviour stated in `requires`/`ensures` contracts.

- `src/text.rs` — lines, words and whitespace as Rust's `str` defines them.
- `src/config.rs` — the configuration file: comments, the `window_buffer`
  setting, decimal integers, the path of the file.
- `src/keys.rs` — key bindings: which bindings a key event fires.
- `src/layout.rs` — the master/stack tiling layout, with proofs that, for a
  buffer and an output size that are not negative, tiles stay on the output
  and do not overlap.
- `src/order.rs` — the window order and dropping a dragged window.
- `src/actions.rs` — what a fired binding or a pointer button does.
- `src/drm.rs` — the DRM devices the backend knows.
- `app/` — the compositor itself on smithay: event loop, input, I/O.

`keys::get_keys_from_file` takes the keysym lookup as a function, which it
calls once for each key the bindings name (`keys::keysym_table`); `app/`
passes libxkbcommon's `keysym_from_name`: libxkbcommon is a system library,
and only `app/` links against it. The master window's gap is 1.5
times the buffer computed in single precision; `layout` states that
computation exactly in integers (`f32_round`, `one_and_half`).
