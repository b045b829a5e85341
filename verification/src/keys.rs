//! Key bindings. A binding line of the configuration names a command and
//! then the keys that trigger it, such as `launch_term = super Return`: the
//! modifiers that must be held and, last, the key that must be pressed.

use vstd::prelude::*;
use crate::config::is_comment;
use crate::text::{
    chars_of, lines, next_line, range_eq_str, range_string, ranges_view, split_words,
    str_contains, str_eq, words,
};

verus! {

/// Whether a key went down or up.
#[derive(Debug, Clone, Copy, PartialEq, Eq, Structural)]
pub enum KeyState {
    Released,
    Pressed,
}

/// The modifiers held while a key event arrives.
#[derive(Debug, Clone, Copy)]
pub struct ModifiersState {
    pub ctrl: bool,
    pub alt: bool,
    pub shift: bool,
    pub caps_lock: bool,
    /// The "super" (logo) key.
    pub logo: bool,
}

/// Why the key bindings of a configuration cannot be matched past a line.
///
/// Each variant is an input on which matching cannot go on: the bindings of
/// the lines before it may already have fired and been acted on, so these
/// are reported as a result (with the commands fired so far) rather than
/// ruled out by `requires`; the caller acts on those commands and then
/// fails. A blank line of whitespace (`NoCommand`) stops matching whether
/// the key is pressed or released.
#[derive(Debug, Clone, Copy, PartialEq, Eq, Structural)]
pub enum BindingError {
    /// A line holds only whitespace, so it names no command.
    NoCommand,
    /// A binding names no key.
    NoKeys,
    /// The key of a binding has a NUL character in its name.
    NulInKeyName,
    /// The count of matching keys of a binding does not fit in a `u8`.
    TooManyKeys,
    /// More than 255 bindings matched one key event.
    TooManyBindings,
}

/// Whether `name` names one of the modifiers held in `m`.
pub open spec fn modifier_held(name: Seq<char>, m: ModifiersState) -> bool {
    if name == "ctrl"@ {
        m.ctrl
    } else if name == "alt"@ {
        m.alt
    } else if name == "shift"@ {
        m.shift
    } else if name == "super"@ {
        m.logo
    } else if name == "caps_lock"@ {
        m.caps_lock
    } else {
        false
    }
}

/// The keysym of `name` in a table of `(name, keysym)` pairs: that of the
/// first pair with this name.
pub open spec fn table_lookup(table: Seq<(String, u32)>, name: Seq<char>) -> Option<u32>
    decreases table.len(),
{
    if table.len() == 0 {
        None
    } else if table[0].0@ == name {
        Some(table[0].1)
    } else {
        table_lookup(table.drop_first(), name)
    }
}

pub open spec fn strings_view(v: Seq<String>) -> Seq<Seq<char>> {
    v.map_values(|s: String| s@)
}

/// How many of the keys are modifiers held in `m`.
pub open spec fn held_count(keys: Seq<Seq<char>>, m: ModifiersState) -> nat
    decreases keys.len(),
{
    if keys.len() == 0 {
        0
    } else {
        held_count(keys.drop_last(), m) + if modifier_held(keys.last(), m) {
            1nat
        } else {
            0nat
        }
    }
}

/// 1 when the last key is the one whose keysym is `keysym`, else 0.
pub open spec fn key_hit(keys: Seq<Seq<char>>, keysym: u32, table: Seq<(String, u32)>) -> nat {
    if table_lookup(table, keys.last()) == Some(keysym) {
        1
    } else {
        0
    }
}

/// The count of keys of a binding that the event satisfies.
pub open spec fn binding_score(
    keys: Seq<Seq<char>>,
    m: ModifiersState,
    keysym: u32,
    table: Seq<(String, u32)>,
) -> nat {
    held_count(keys, m) + key_hit(keys, keysym, table)
}

/// A binding fires on a key press that satisfies each of its keys.
pub open spec fn spec_check_keys(
    state: KeyState,
    keys: Seq<Seq<char>>,
    m: ModifiersState,
    keysym: u32,
    table: Seq<(String, u32)>,
) -> bool {
    state == KeyState::Pressed && binding_score(keys, m, keysym, table) == keys.len()
}

pub proof fn lemma_held_count_prefix(keys: Seq<Seq<char>>, m: ModifiersState, k: int)
    requires
        0 <= k <= keys.len(),
    ensures
        held_count(keys.take(k), m) <= held_count(keys, m),
        held_count(keys, m) <= keys.len(),
    decreases keys.len(),
{
    if keys.len() > 0 {
        lemma_held_count_prefix(keys.drop_last(), m, if k < keys.len() {
            k
        } else {
            0
        });
        if k < keys.len() {
            assert(keys.drop_last().take(k) =~= keys.take(k));
        } else {
            assert(keys.take(k) =~= keys);
        }
    } else {
        assert(keys.take(k) =~= keys);
    }
}

/// 1 when `key_check` names a modifier that is held, else 0.
pub fn name_to_press(key_check: &str, modifiers: &ModifiersState) -> (r: u8)
    ensures
        r == (if modifier_held(key_check@, *modifiers) {
            1u8
        } else {
            0u8
        }),
{
    let held = if str_eq(key_check, "ctrl") {
        modifiers.ctrl
    } else if str_eq(key_check, "alt") {
        modifiers.alt
    } else if str_eq(key_check, "shift") {
        modifiers.shift
    } else if str_eq(key_check, "super") {
        modifiers.logo
    } else if str_eq(key_check, "caps_lock") {
        modifiers.caps_lock
    } else {
        false
    };
    if held {
        1
    } else {
        0
    }
}

/// The keysym that `table` gives `name`.
pub fn keysym_lookup(table: &Vec<(String, u32)>, name: &str) -> (r: Option<u32>)
    ensures
        r == table_lookup(table@, name@),
{
    let n = table.len();
    let mut i: usize = 0;
    assert(table@.skip(0) =~= table@);
    while i < n
        invariant
            n == table.len(),
            0 <= i <= n,
            table_lookup(table@, name@) == table_lookup(table@.skip(i as int), name@),
        decreases n - i,
    {
        assert(table@.skip(i as int)[0] == table@[i as int]);
        assert(table@.skip(i as int).drop_first() =~= table@.skip(i + 1));
        if str_eq(table[i].0.as_str(), name) {
            return Some(table[i].1);
        }
        i = i + 1;
    }
    None
}

/// 1 when `keysym` is the keysym of the key named `check`, else 0.
pub fn keysym_press_check(keysym: u32, check: &str, table: &Vec<(String, u32)>) -> (r: u8)
    requires
        table_lookup(table@, check@) is Some,
    ensures
        r == (if table_lookup(table@, check@) == Some(keysym) {
            1u8
        } else {
            0u8
        }),
{
    let target = keysym_lookup(table, check);
    if target == Some(keysym) {
        1
    } else {
        0
    }
}

/// Whether a key event fires a binding: `keys.1` are the binding's keys,
/// `keys.0` and `keys.2` the state of the key and of the modifiers.
pub fn check_keys(
    keys: (KeyState, Vec<String>, ModifiersState),
    keysym: &u32,
    table: &Vec<(String, u32)>,
) -> (r: bool)
    requires
        keys.0 == KeyState::Pressed ==> {
            &&& keys.1.len() > 0
            &&& table_lookup(table@, strings_view(keys.1@).last()) is Some
            &&& binding_score(strings_view(keys.1@), keys.2, *keysym, table@) <= 255
        },
    ensures
        r == spec_check_keys(keys.0, strings_view(keys.1@), keys.2, *keysym, table@),
{
    let ghost v = strings_view(keys.1@);
    let mut pressed: u8 = 0;
    if !(keys.0 == KeyState::Pressed) {
        return false;
    }
    let n = keys.1.len();
    proof {
        lemma_held_count_prefix(v, keys.2, n as int);
    }
    assert(v.take(0) =~= Seq::<Seq<char>>::empty());
    for i in 0..n
        invariant
            n == keys.1.len(),
            v == strings_view(keys.1@),
            held_count(v, keys.2) <= 255,
            pressed == held_count(v.take(i as int), keys.2),
    {
        proof {
            lemma_held_count_prefix(v, keys.2, i + 1);
            assert(v.take(i + 1).drop_last() =~= v.take(i as int));
            assert(v.take(i + 1).last() == keys.1@[i as int]@);
        }
        pressed = pressed + name_to_press(keys.1[i].as_str(), &keys.2);
    }
    assert(v.take(n as int) =~= v);
    assert(v.last() == keys.1@[n - 1]@);
    pressed = pressed + keysym_press_check(*keysym, keys.1[n - 1].as_str(), table);
    (pressed as usize) == n
}


/// The words of `ws` other than `=`.
pub open spec fn without_eq(ws: Seq<Seq<char>>) -> Seq<Seq<char>>
    decreases ws.len(),
{
    if ws.len() == 0 {
        Seq::empty()
    } else {
        let p = without_eq(ws.drop_last());
        if ws.last() == "="@ {
            p
        } else {
            p.push(ws.last())
        }
    }
}

/// The keys of a binding line: its words after the first, without `=`.
pub open spec fn binding_keys(line: Seq<char>) -> Seq<Seq<char>> {
    without_eq(words(line).skip(1))
}

/// A line that is empty or a comment binds nothing.
pub open spec fn is_binding_line(line: Seq<char>) -> bool {
    line.len() > 0 && !is_comment(line)
}

/// Why a line stops the matching of a key event, if it does.
pub open spec fn line_error(
    line: Seq<char>,
    state: KeyState,
    m: ModifiersState,
    keysym: u32,
    table: Seq<(String, u32)>,
) -> Option<BindingError> {
    let keys = binding_keys(line);
    if !is_binding_line(line) {
        None
    } else if words(line).len() == 0 {
        Some(BindingError::NoCommand)
    } else if state != KeyState::Pressed {
        None
    } else if keys.len() == 0 {
        Some(BindingError::NoKeys)
    } else if keys.last().contains('\0') {
        Some(BindingError::NulInKeyName)
    } else if binding_score(keys, m, keysym, table) > 255 {
        Some(BindingError::TooManyKeys)
    } else {
        None
    }
}

/// Whether a line's binding fires on the event.
pub open spec fn line_fires(
    line: Seq<char>,
    state: KeyState,
    m: ModifiersState,
    keysym: u32,
    table: Seq<(String, u32)>,
) -> bool {
    is_binding_line(line) && words(line).len() > 0 && spec_check_keys(
        state,
        binding_keys(line),
        m,
        keysym,
        table,
    )
}

/// The commands of the bindings that fire, in the order of the lines, and
/// the error that stops the matching, if any; `fired` bindings fired before.
pub open spec fn scan(
    ls: Seq<Seq<char>>,
    state: KeyState,
    m: ModifiersState,
    keysym: u32,
    table: Seq<(String, u32)>,
    fired: nat,
) -> (Seq<Seq<char>>, Option<BindingError>)
    decreases ls.len(),
{
    if ls.len() == 0 {
        (Seq::empty(), None)
    } else {
        let l = ls[0];
        match line_error(l, state, m, keysym, table) {
            Some(e) => (Seq::empty(), Some(e)),
            None => if line_fires(l, state, m, keysym, table) {
                if fired >= 255 {
                    (seq![words(l)[0]], Some(BindingError::TooManyBindings))
                } else {
                    let r = scan(ls.drop_first(), state, m, keysym, table, fired + 1);
                    (seq![words(l)[0]] + r.0, r.1)
                }
            } else {
                scan(ls.drop_first(), state, m, keysym, table, fired)
            },
        }
    }
}

/// The key whose keysym a line's binding needs, when it names one without a
/// NUL character.
pub open spec fn key_name_of(line: Seq<char>) -> Option<Seq<char>> {
    let keys = binding_keys(line);
    if is_binding_line(line) && words(line).len() > 0 && keys.len() > 0 && !keys.last().contains(
        '\0',
    ) {
        Some(keys.last())
    } else {
        None
    }
}

/// The keys whose keysyms the bindings of `ls` need, in order.
pub open spec fn key_names(ls: Seq<Seq<char>>) -> Seq<Seq<char>>
    decreases ls.len(),
{
    if ls.len() == 0 {
        Seq::empty()
    } else {
        match key_name_of(ls[0]) {
            Some(n) => seq![n] + key_names(ls.drop_first()),
            None => key_names(ls.drop_first()),
        }
    }
}

/// `table` knows the keysym of every key that a binding of `ls` needs.
pub open spec fn table_covers(table: Seq<(String, u32)>, ls: Seq<Seq<char>>) -> bool {
    forall|i: int|
        0 <= i < ls.len() ==> (#[trigger] key_name_of(ls[i]) matches Some(n) ==> table_lookup(
            table,
            n,
        ) is Some)
}

/// What a key event does with the bindings of a configuration.
pub struct KeyScan {
    /// The commands of the bindings that fired, in the order of the lines.
    pub commands: Vec<String>,
    /// Why matching stopped before the end, if it did.
    pub error: Option<BindingError>,
    /// The keysym of each key that the bindings name, as the matching used
    /// it.
    pub keysyms: Vec<(String, u32)>,
}

/// The key names of a keysym table, in order.
pub open spec fn table_names(table: Seq<(String, u32)>) -> Seq<Seq<char>> {
    table.map_values(|p: (String, u32)| p.0@)
}

/// `resolve` may be called on every key name without a NUL character.
pub open spec fn resolves_names<F: Fn(String) -> u32>(resolve: F) -> bool {
    forall|s: String| !s@.contains('\0') ==> #[trigger] call_requires(resolve, (s,))
}

impl KeyScan {
    /// Whether the event is kept from the focused client: it is when some
    /// binding fired.
    pub fn intercepts(&self) -> (r: bool)
        ensures
            r == (self.commands.len() > 0),
    {
        self.commands.len() > 0
    }
}

/// The keys of `t[a..b]` (its words after the first, without `=`), given
/// the ranges `ws` of its words.
fn binding_params(s: &str, t: &Vec<char>, ws: &Vec<(usize, usize)>, a: usize, b: usize) -> (r: Vec<
    String,
>)
    requires
        t@ == s@,
        a <= b <= t.len(),
        ranges_view(t@, ws@) == words(t@.subrange(a as int, b as int)),
        forall|k: int| 0 <= k < ws.len() ==> a <= #[trigger] ws@[k].0 <= ws@[k].1 <= b,
        ws.len() > 0,
    ensures
        strings_view(r@) == binding_keys(t@.subrange(a as int, b as int)),
{
    let ghost w = ranges_view(t@, ws@).skip(1);
    let mut r: Vec<String> = Vec::new();
    let n = ws.len();
    let mut k: usize = 1;
    assert(w.take(0) =~= Seq::<Seq<char>>::empty());
    assert(strings_view(r@) =~= Seq::<Seq<char>>::empty());
    while k < n
        invariant
            t@ == s@,
            n == ws.len(),
            1 <= k <= n,
            a <= b <= t.len(),
            forall|j: int| 0 <= j < ws.len() ==> a <= #[trigger] ws@[j].0 <= ws@[j].1 <= b,
            w == ranges_view(t@, ws@).skip(1),
            strings_view(r@) == without_eq(w.take(k - 1)),
        decreases n - k,
    {
        let ghost old_r = r@;
        let (p, q) = ws[k];
        assert(w.take(k as int).drop_last() =~= w.take(k - 1));
        assert(w.take(k as int).last() == t@.subrange(p as int, q as int));
        if !range_eq_str(t, p, q, "=") {
            let word = range_string(s, t, p, q);
            r.push(word);
            assert(strings_view(r@) =~= strings_view(old_r).push(word@));
        }
        k = k + 1;
    }
    assert(w.take(n - 1) =~= w);
    r
}

/// How many of `keys` are modifiers held in `m`.
fn held_modifiers(keys: &Vec<String>, m: &ModifiersState) -> (r: usize)
    ensures
        r == held_count(strings_view(keys@), *m),
{
    let ghost v = strings_view(keys@);
    let n = keys.len();
    let mut held: usize = 0;
    assert(v.take(0) =~= Seq::<Seq<char>>::empty());
    for i in 0..n
        invariant
            n == keys.len(),
            v == strings_view(keys@),
            held == held_count(v.take(i as int), *m),
    {
        proof {
            lemma_held_count_prefix(v.take(i + 1), *m, 0);
            assert(v.take(i + 1).drop_last() =~= v.take(i as int));
            assert(v.take(i + 1).last() == keys@[i as int]@);
        }
        held = held + name_to_press(keys[i].as_str(), m) as usize;
    }
    assert(v.take(n as int) =~= v);
    held
}

/// Matches a key event against the bindings of a configuration, line by
/// line, with the keysyms of `table`.
fn match_bindings(
    config: &str,
    keystate: KeyState,
    modifiers: &ModifiersState,
    keysym: &u32,
    table: &Vec<(String, u32)>,
) -> (r: (Vec<String>, Option<BindingError>))
    requires
        table_covers(table@, lines(config@)),
    ensures
        (strings_view(r.0@), r.1) == scan(
            lines(config@),
            keystate,
            *modifiers,
            *keysym,
            table@,
            0,
        ),
{
    let t = chars_of(config);
    let n = t.len();
    let mut commands: Vec<String> = Vec::new();
    let mut pos: usize = 0;
    let ghost whole = scan(lines(config@), keystate, *modifiers, *keysym, table@, 0);
    assert(t@.skip(0) =~= t@);
    assert(strings_view(commands@) + whole.0 =~= whole.0);
    while pos < n
        invariant
            n == t.len(),
            t@ == config@,
            0 <= pos <= n,
            commands.len() <= 255,
            whole == scan(lines(config@), keystate, *modifiers, *keysym, table@, 0),
            table_covers(table@, lines(t@.skip(pos as int))),
            ({
                let r = scan(
                    lines(t@.skip(pos as int)),
                    keystate,
                    *modifiers,
                    *keysym,
                    table@,
                    commands.len() as nat,
                );
                whole == (strings_view(commands@) + r.0, r.1)
            }),
        decreases n - pos,
    {
        let (a, b, next) = next_line(&t, pos);
        let ghost line = t@.subrange(a as int, b as int);
        let ghost rest = lines(t@.skip(next as int));
        let ghost all = lines(t@.skip(pos as int));
        assert(all[0] == line);
        assert(all.drop_first() =~= rest);
        assert(table_covers(table@, rest)) by {
            assert forall|i: int| 0 <= i < rest.len() implies (#[trigger] key_name_of(
                rest[i],
            ) matches Some(nm) ==> table_lookup(table@, nm) is Some) by {
                assert(rest[i] == all[i + 1]);
                assert(key_name_of(all[i + 1]) == key_name_of(rest[i]));
            }
        }
        assert(key_name_of(all[0]) matches Some(nm) ==> table_lookup(table@, nm) is Some);
        let ghost before = commands@;
        let skip = b == a || t[a] == '#' || t[a] == '/';
        assert(skip == !is_binding_line(line));
        if !skip {
            let ws = split_words(&t, a, b);
            if ws.len() == 0 {
                return (commands, Some(BindingError::NoCommand));
            }
            let params = binding_params(config, &t, &ws, a, b);
            let ghost keys = binding_keys(line);
            if keystate == KeyState::Pressed {
                let np = params.len();
                if np == 0 {
                    return (commands, Some(BindingError::NoKeys));
                }
                assert(keys.last() == params@[np - 1]@);
                if str_contains(params[np - 1].as_str(), '\0') {
                    return (commands, Some(BindingError::NulInKeyName));
                }
                let held = held_modifiers(&params, modifiers);
                let hit = keysym_press_check(*keysym, params[np - 1].as_str(), table);
                if held > 255 || held + hit as usize > 255 {
                    return (commands, Some(BindingError::TooManyKeys));
                }
            }
            let fires = check_keys((keystate, params, *modifiers), keysym, table);
            if fires {
                let cmd = range_string(config, &t, ws[0].0, ws[0].1);
                commands.push(cmd);
                assert(strings_view(commands@) =~= strings_view(before).push(cmd@));
                if commands.len() > 255 {
                    assert(strings_view(commands@) =~= strings_view(before) + seq![cmd@]);
                    return (commands, Some(BindingError::TooManyBindings));
                }
                let ghost later = scan(
                    rest,
                    keystate,
                    *modifiers,
                    *keysym,
                    table@,
                    commands.len() as nat,
                ).0;
                assert(strings_view(commands@) + later =~= strings_view(before) + (seq![cmd@]
                    + later));
            }
        }
        pos = next;
    }
    assert(t@.skip(n as int) =~= Seq::<char>::empty());
    assert(strings_view(commands@) + Seq::<Seq<char>>::empty() =~= strings_view(commands@));
    (commands, None)
}


proof fn lemma_key_names_without_nul(ls: Seq<Seq<char>>)
    ensures
        forall|k: int| 0 <= k < key_names(ls).len() ==> !(#[trigger] key_names(ls)[k]).contains('\0'),
    decreases ls.len(),
{
    if ls.len() > 0 {
        let rest = ls.drop_first();
        lemma_key_names_without_nul(rest);
        let head: Seq<Seq<char>> = match key_name_of(ls[0]) {
            Some(n) => seq![n],
            None => Seq::empty(),
        };
        assert(key_names(ls) == head + key_names(rest));
        assert forall|k: int| 0 <= k < key_names(ls).len() implies !(
        #[trigger] key_names(ls)[k]).contains('\0') by {
            if k >= head.len() {
                assert(key_names(ls)[k] == key_names(rest)[k - head.len()]);
            }
        }
    }
}

proof fn lemma_lookup_finds(table: Seq<(String, u32)>, k: int)
    requires
        0 <= k < table.len(),
    ensures
        table_lookup(table, table[k].0@) is Some,
    decreases table.len(),
{
    if k > 0 && table[0].0@ != table[k].0@ {
        assert(table.drop_first()[k - 1] == table[k]);
        lemma_lookup_finds(table.drop_first(), k - 1);
    }
}

/// The keysym of each key that the bindings of `config` name (as
/// `binding_key_names` lists them), as `resolve` gives it.
pub fn keysym_table<F: Fn(String) -> u32>(config: &str, resolve: F) -> (r: Vec<(String, u32)>)
    requires
        resolves_names(resolve),
    ensures
        table_names(r@) == key_names(lines(config@)),
        forall|i: int| 0 <= i < r.len() ==> call_ensures(resolve, (r@[i].0,), #[trigger] r@[i].1),
        table_covers(r@, lines(config@)),
{
    let names = binding_key_names(config);
    let ghost want = key_names(lines(config@));
    proof {
        lemma_key_names_without_nul(lines(config@));
    }
    let mut table: Vec<(String, u32)> = Vec::new();
    let n = names.len();
    for i in 0..n
        invariant
            n == names.len(),
            strings_view(names@) == want,
            want == key_names(lines(config@)),
            forall|k: int| 0 <= k < want.len() ==> !(#[trigger] want[k]).contains('\0'),
            resolves_names(resolve),
            table.len() == i,
            forall|k: int| 0 <= k < i ==> #[trigger] table@[k].0@ == names@[k]@,
            forall|k: int|
                0 <= k < i ==> call_ensures(resolve, (table@[k].0,), #[trigger] table@[k].1),
    {
        let name = names[i].clone();
        assert(!name@.contains('\0')) by {
            assert(want[i as int] == names@[i as int]@);
        }
        assert(call_requires(resolve, (name,)));
        let sym = resolve(name.clone());
        table.push((name, sym));
    }
    assert(table_names(table@) =~= want);
    proof {
        assert forall|k: int|
            0 <= k < want.len() implies table_lookup(table@, #[trigger] want[k]) is Some by {
            assert(table@[k].0@ == want[k]);
            lemma_lookup_finds(table@, k);
        }
        lemma_key_names_cover(table@, lines(config@));
    }
    table
}

/// Matches a key event against the bindings of a configuration, line by
/// line, with the keysyms that `resolve` gives the keys the bindings name.
/// A binding fires when the key is pressed, every modifier it names is held
/// and its last key is the pressed key. The result lists the commands of
/// the bindings that fire, in order, and the keysyms used.
///
/// A line on which matching cannot go on (see `BindingError`) ends it: the
/// result then holds the commands of the lines before it and that error,
/// for the caller to act on those commands first and then fail.
pub fn get_keys_from_file<F: Fn(String) -> u32>(
    config: &str,
    keystate: KeyState,
    modifiers: &ModifiersState,
    keysym: &u32,
    resolve: F,
) -> (r: KeyScan)
    requires
        resolves_names(resolve),
    ensures
        table_names(r.keysyms@) == key_names(lines(config@)),
        forall|i: int|
            0 <= i < r.keysyms.len() ==> call_ensures(
                resolve,
                (r.keysyms@[i].0,),
                #[trigger] r.keysyms@[i].1,
            ),
        (strings_view(r.commands@), r.error) == scan(
            lines(config@),
            keystate,
            *modifiers,
            *keysym,
            r.keysyms@,
            0,
        ),
{
    let keysyms = keysym_table(config, resolve);
    let (commands, error) = match_bindings(config, keystate, modifiers, keysym, &keysyms);
    KeyScan { commands, error, keysyms }
}

/// The keys whose keysyms `get_keys_from_file` needs for a configuration:
/// the last key of each binding, when its name has no NUL character.
pub fn binding_key_names(config: &str) -> (r: Vec<String>)
    ensures
        strings_view(r@) == key_names(lines(config@)),
{
    let t = chars_of(config);
    let n = t.len();
    let mut names: Vec<String> = Vec::new();
    let mut pos: usize = 0;
    assert(t@.skip(0) =~= t@);
    assert(strings_view(names@) + key_names(lines(t@)) =~= key_names(lines(t@)));
    while pos < n
        invariant
            n == t.len(),
            t@ == config@,
            0 <= pos <= n,
            key_names(lines(config@)) == strings_view(names@) + key_names(
                lines(t@.skip(pos as int)),
            ),
        decreases n - pos,
    {
        let (a, b, next) = next_line(&t, pos);
        let ghost line = t@.subrange(a as int, b as int);
        let ghost rest = lines(t@.skip(next as int));
        let ghost all = lines(t@.skip(pos as int));
        assert(all[0] == line);
        assert(all.drop_first() =~= rest);
        let ghost before = names@;
        let skip = b == a || t[a] == '#' || t[a] == '/';
        assert(skip == !is_binding_line(line));
        if !skip {
            let ws = split_words(&t, a, b);
            if ws.len() > 0 {
                let mut params = binding_params(config, &t, &ws, a, b);
                let np = params.len();
                if np > 0 {
                    assert(binding_keys(line).last() == params@[np - 1]@);
                    if !str_contains(params[np - 1].as_str(), '\0') {
                        let name = params.pop().unwrap();
                        names.push(name);
                        assert(strings_view(names@) + key_names(rest) =~= strings_view(before) + (
                        seq![name@] + key_names(rest)));
                    }
                }
            }
        }
        pos = next;
    }
    assert(t@.skip(n as int) =~= Seq::<char>::empty());
    assert(strings_view(names@) + Seq::<Seq<char>>::empty() =~= strings_view(names@));
    names
}


/// A key release fires no binding; the only line that stops matching it is
/// one that holds nothing but whitespace.
pub proof fn lemma_release_fires_nothing(
    ls: Seq<Seq<char>>,
    m: ModifiersState,
    keysym: u32,
    table: Seq<(String, u32)>,
    fired: nat,
)
    ensures
        scan(ls, KeyState::Released, m, keysym, table, fired).0.len() == 0,
        scan(ls, KeyState::Released, m, keysym, table, fired).1 matches Some(e) ==> e
            == BindingError::NoCommand,
    decreases ls.len(),
{
    if ls.len() > 0 {
        lemma_release_fires_nothing(ls.drop_first(), m, keysym, table, fired);
    }
}

/// `c` is the first word of one of the lines `ls`.
pub open spec fn first_word_in(c: Seq<char>, ls: Seq<Seq<char>>) -> bool {
    exists|i: int| 0 <= i < ls.len() && words(#[trigger] ls[i]).len() > 0 && c == words(ls[i])[0]
}

/// Each of `cs` is the first word of one of the lines `ls`.
pub open spec fn first_words_of(cs: Seq<Seq<char>>, ls: Seq<Seq<char>>) -> bool {
    forall|k: int| 0 <= k < cs.len() ==> #[trigger] first_word_in(cs[k], ls)
}

proof fn lemma_first_words_extend(cs: Seq<Seq<char>>, ls: Seq<Seq<char>>)
    requires
        ls.len() > 0,
        first_words_of(cs, ls.drop_first()),
    ensures
        first_words_of(cs, ls),
{
    let rest = ls.drop_first();
    assert forall|k: int| 0 <= k < cs.len() implies #[trigger] first_word_in(cs[k], ls) by {
        assert(first_word_in(cs[k], rest));
        let i = choose|i: int|
            0 <= i < rest.len() && words(#[trigger] rest[i]).len() > 0 && cs[k] == words(
                rest[i],
            )[0];
        assert(rest[i] == ls[i + 1]);
        assert(words(ls[i + 1]).len() > 0 && cs[k] == words(ls[i + 1])[0]);
    }
}

/// Every command in the answer to a key event is the first word of a
/// binding line of the configuration, and at most 256 bindings fire.
pub proof fn lemma_commands_from_lines(
    ls: Seq<Seq<char>>,
    state: KeyState,
    m: ModifiersState,
    keysym: u32,
    table: Seq<(String, u32)>,
    fired: nat,
)
    requires
        fired <= 255,
    ensures
        first_words_of(scan(ls, state, m, keysym, table, fired).0, ls),
        scan(ls, state, m, keysym, table, fired).0.len() + fired <= 256,
    decreases ls.len(),
{
    let r = scan(ls, state, m, keysym, table, fired);
    if ls.len() > 0 {
        let l = ls[0];
        let rest = ls.drop_first();
        match line_error(l, state, m, keysym, table) {
            Some(e) => {
                assert(r.0 =~= Seq::<Seq<char>>::empty());
            },
            None => {
                if line_fires(l, state, m, keysym, table) {
                    assert(words(ls[0]).len() > 0);
                    assert(first_word_in(words(l)[0], ls));
                    if fired >= 255 {
                        assert(r.0 =~= seq![words(l)[0]]);
                        assert forall|k: int| 0 <= k < r.0.len() implies #[trigger] first_word_in(
                            r.0[k],
                            ls,
                        ) by {
                            assert(r.0[k] == words(l)[0]);
                        }
                    } else {
                        lemma_commands_from_lines(rest, state, m, keysym, table, fired + 1);
                        let rr = scan(rest, state, m, keysym, table, fired + 1);
                        lemma_first_words_extend(rr.0, ls);
                        assert(r.0 == seq![words(l)[0]] + rr.0);
                        assert forall|k: int| 0 <= k < r.0.len() implies #[trigger] first_word_in(
                            r.0[k],
                            ls,
                        ) by {
                            if k > 0 {
                                assert(r.0[k] == rr.0[k - 1]);
                                assert(first_word_in(rr.0[k - 1], ls));
                            } else {
                                assert(r.0[k] == words(l)[0]);
                            }
                        }
                    }
                } else {
                    lemma_commands_from_lines(rest, state, m, keysym, table, fired);
                    let rr = scan(rest, state, m, keysym, table, fired);
                    lemma_first_words_extend(rr.0, ls);
                    assert(r == rr);
                }
            },
        }
    }
}


/// A table that knows the keysym of every key that `binding_key_names`
/// lists knows every key that `get_keys_from_file` looks up.
pub proof fn lemma_key_names_cover(table: Seq<(String, u32)>, ls: Seq<Seq<char>>)
    requires
        forall|k: int|
            0 <= k < key_names(ls).len() ==> table_lookup(table, #[trigger] key_names(ls)[k]) is Some,
    ensures
        table_covers(table, ls),
    decreases ls.len(),
{
    if ls.len() > 0 {
        let rest = ls.drop_first();
        let head: Seq<Seq<char>> = match key_name_of(ls[0]) {
            Some(n) => seq![n],
            None => Seq::empty(),
        };
        assert(key_names(ls) == head + key_names(rest));
        assert forall|k: int|
            0 <= k < key_names(rest).len() implies table_lookup(
            table,
            #[trigger] key_names(rest)[k],
        ) is Some by {
            assert(key_names(ls)[k + head.len()] == key_names(rest)[k]);
        }
        lemma_key_names_cover(table, rest);
        assert forall|i: int| 0 <= i < ls.len() implies (#[trigger] key_name_of(
            ls[i],
        ) matches Some(n) ==> table_lookup(table, n) is Some) by {
            if i == 0 {
                if key_name_of(ls[0]) is Some {
                    assert(key_names(ls)[0] == key_name_of(ls[0])->Some_0);
                }
            } else {
                assert(ls[i] == rest[i - 1]);
            }
        }
    }
}


/// Each modifier name counts as held exactly when its own modifier is held,
/// whatever the others are: `ctrl`, `alt`, `shift`, `super` (the logo key)
/// and `caps_lock`; any other name never counts.
pub proof fn lemma_modifier_names(name: Seq<char>, m: ModifiersState)
    ensures
        name == seq!['c', 't', 'r', 'l'] ==> (modifier_held(name, m) == m.ctrl),
        name == seq!['a', 'l', 't'] ==> (modifier_held(name, m) == m.alt),
        name == seq!['s', 'h', 'i', 'f', 't'] ==> (modifier_held(name, m) == m.shift),
        name == seq!['s', 'u', 'p', 'e', 'r'] ==> (modifier_held(name, m) == m.logo),
        name == seq!['c', 'a', 'p', 's', '_', 'l', 'o', 'c', 'k'] ==> (modifier_held(name, m)
            == m.caps_lock),
        name != seq!['c', 't', 'r', 'l'] && name != seq!['a', 'l', 't'] && name != seq![
            's',
            'h',
            'i',
            'f',
            't',
        ] && name != seq!['s', 'u', 'p', 'e', 'r'] && name != seq![
            'c',
            'a',
            'p',
            's',
            '_',
            'l',
            'o',
            'c',
            'k',
        ] ==> !modifier_held(name, m),
{
    reveal_strlit("ctrl");
    reveal_strlit("alt");
    reveal_strlit("shift");
    reveal_strlit("super");
    reveal_strlit("caps_lock");
    assert("ctrl"@ =~= seq!['c', 't', 'r', 'l']);
    assert("alt"@ =~= seq!['a', 'l', 't']);
    assert("shift"@ =~= seq!['s', 'h', 'i', 'f', 't']);
    assert("super"@ =~= seq!['s', 'u', 'p', 'e', 'r']);
    assert("caps_lock"@ =~= seq!['c', 'a', 'p', 's', '_', 'l', 'o', 'c', 'k']);
}

/// A binding of one modifier and one other key (`cmd = alt Return`) fires
/// on a press of that key exactly when that modifier is held.
pub proof fn lemma_modifier_binding(
    modifier: Seq<char>,
    key: Seq<char>,
    m: ModifiersState,
    keysym: u32,
    table: Seq<(String, u32)>,
)
    requires
        table_lookup(table, key) == Some(keysym),
        !modifier_held(key, m),
    ensures
        spec_check_keys(KeyState::Pressed, seq![modifier, key], m, keysym, table)
            == modifier_held(modifier, m),
        !spec_check_keys(KeyState::Released, seq![modifier, key], m, keysym, table),
{
    let keys = seq![modifier, key];
    assert(keys.drop_last() =~= seq![modifier]);
    assert(seq![modifier].drop_last() =~= Seq::<Seq<char>>::empty());
    assert(held_count(Seq::<Seq<char>>::empty(), m) == 0);
    assert(held_count(seq![modifier], m) == if modifier_held(modifier, m) { 1nat } else { 0nat });
}


/// A binding of one key that is not a held modifier name (`cmd = Return`)
/// fires exactly on a press of the key with that keysym.
pub proof fn lemma_single_key_binding(
    key: Seq<char>,
    m: ModifiersState,
    keysym: u32,
    table: Seq<(String, u32)>,
)
    requires
        !modifier_held(key, m),
    ensures
        spec_check_keys(KeyState::Pressed, seq![key], m, keysym, table) == (table_lookup(table, key)
            == Some(keysym)),
        !spec_check_keys(KeyState::Released, seq![key], m, keysym, table),
{
    assert(seq![key].drop_last() =~= Seq::<Seq<char>>::empty());
    assert(held_count(Seq::<Seq<char>>::empty(), m) == 0);
}

/// The keys of a binding are its words other than `=`, in order: a `=`
/// word is dropped wherever it stands, and other words are kept.
pub proof fn lemma_without_eq(a: Seq<Seq<char>>, w: Seq<char>)
    ensures
        w == seq!['='] ==> without_eq(a.push(w)) == without_eq(a),
        w != seq!['='] ==> without_eq(a.push(w)) == without_eq(a).push(w),
        forall|k: int| 0 <= k < without_eq(a).len() ==> #[trigger] without_eq(a)[k] != seq!['='],
    decreases a.len(),
{
    reveal_strlit("=");
    assert("="@ =~= seq!['=']);
    assert(a.push(w).drop_last() =~= a);
    if a.len() > 0 {
        lemma_without_eq(a.drop_last(), a.last());
        assert(a.drop_last().push(a.last()) =~= a);
    }
}


/// Matching a key event against a configuration in two parts, of which the
/// first stops on no error, gives the commands of the first part and then
/// those of the second, counted on from the first.
pub proof fn lemma_scan_concat(
    a: Seq<Seq<char>>,
    b: Seq<Seq<char>>,
    state: KeyState,
    m: ModifiersState,
    keysym: u32,
    table: Seq<(String, u32)>,
    fired: nat,
)
    requires
        scan(a, state, m, keysym, table, fired).1 is None,
    ensures
        ({
            let ra = scan(a, state, m, keysym, table, fired);
            let rb = scan(b, state, m, keysym, table, fired + ra.0.len());
            scan(a + b, state, m, keysym, table, fired) == (ra.0 + rb.0, rb.1)
        }),
    decreases a.len(),
{
    if a.len() == 0 {
        assert(a + b =~= b);
        assert(scan(a, state, m, keysym, table, fired).0 + scan(b, state, m, keysym, table, fired).0
            =~= scan(b, state, m, keysym, table, fired).0);
    } else {
        let l = a[0];
        let rest = a.drop_first();
        assert((a + b)[0] == l);
        assert((a + b).drop_first() =~= rest + b);
        if line_fires(l, state, m, keysym, table) {
            lemma_scan_concat(rest, b, state, m, keysym, table, fired + 1);
            let r1 = scan(rest, state, m, keysym, table, fired + 1);
            let rb = scan(b, state, m, keysym, table, fired + 1 + r1.0.len());
            assert(seq![words(l)[0]] + (r1.0 + rb.0) =~= (seq![words(l)[0]] + r1.0) + rb.0);
        } else {
            lemma_scan_concat(rest, b, state, m, keysym, table, fired);
        }
    }
}

} // verus!
