//! The hotkey setting: a string such as `Ctrl+Shift+V`, read as modifier
//! names and a key name separated by `+`, without regard to letter case.
use vstd::prelude::*;
use vstd::string::StrSliceExecFns;

verus! {

/// A hotkey: the modifiers that must be held and the key, as a Windows
/// virtual-key code.
#[derive(Debug, Clone, Copy, PartialEq, Eq, Structural)]
pub struct Hotkey {
    pub ctrl: bool,
    pub shift: bool,
    pub alt: bool,
    pub key: u32,
}

/// A modifier key.
#[derive(Debug, Clone, Copy, PartialEq, Eq, Structural)]
pub enum Modifier {
    Ctrl,
    Shift,
    Alt,
}

/// The parts of `s` between the `+` signs, in order (one part when there is
/// no `+`; empty parts where two `+` meet or at either end).
pub open spec fn plus_parts(s: Seq<char>) -> Seq<Seq<char>>
    decreases s.len(),
{
    if s.len() == 0 {
        seq![Seq::empty()]
    } else {
        let parts = plus_parts(s.drop_last());
        if s.last() == '+' {
            parts.push(Seq::empty())
        } else {
            parts.update(parts.len() - 1, parts.last().push(s.last()))
        }
    }
}

/// The code of `c` with an ASCII capital letter taken to its small letter.
pub open spec fn lower_code(c: char) -> u32 {
    if 65 <= c as u32 <= 90 {
        (c as u32 + 32) as u32
    } else {
        c as u32
    }
}

/// Whether `t` spells `name` (given in small letters), ignoring ASCII case.
pub open spec fn names(t: Seq<char>, name: Seq<char>) -> bool {
    &&& t.len() == name.len()
    &&& forall|i: int| 0 <= i < t.len() ==> lower_code(#[trigger] t[i]) == name[i] as u32
}

/// The modifier that a part names: `ctrl` or `control`, `shift`, `alt`.
pub open spec fn modifier_of(t: Seq<char>) -> Option<Modifier> {
    if names(t, seq!['c', 't', 'r', 'l']) || names(t, seq!['c', 'o', 'n', 't', 'r', 'o', 'l']) {
        Some(Modifier::Ctrl)
    } else if names(t, seq!['s', 'h', 'i', 'f', 't']) {
        Some(Modifier::Shift)
    } else if names(t, seq!['a', 'l', 't']) {
        Some(Modifier::Alt)
    } else {
        None
    }
}

/// The virtual-key code that a part names: a letter (its capital's code), a
/// digit (its code), or `F1` to `F12` (0x70 to 0x7B).
pub open spec fn key_code(t: Seq<char>) -> Option<u32> {
    if t.len() == 1 && 97 <= lower_code(t[0]) <= 122 {
        Some((lower_code(t[0]) - 32) as u32)
    } else if t.len() == 1 && 48 <= t[0] as u32 <= 57 {
        Some(t[0] as u32)
    } else if t.len() == 2 && lower_code(t[0]) == 102 && 49 <= t[1] as u32 <= 57 {
        Some((0x70 + (t[1] as u32 - 49)) as u32)
    } else if t.len() == 3 && lower_code(t[0]) == 102 && t[1] as u32 == 49 && 48 <= t[2] as u32 <= 50 {
        Some((0x70 + 9 + (t[2] as u32 - 48)) as u32)
    } else {
        None
    }
}

/// Whether some part of `mods` names `m`.
pub open spec fn names_modifier(mods: Seq<Seq<char>>, m: Modifier) -> bool {
    exists|k: int| 0 <= k < mods.len() && modifier_of(#[trigger] mods[k]) == Some(m)
}

/// The hotkey that `s` describes: every part but the last names a modifier,
/// and the last names a key; `None` otherwise.
pub open spec fn hotkey_of(s: Seq<char>) -> Option<Hotkey> {
    let parts = plus_parts(s);
    let mods = parts.drop_last();
    if (forall|k: int| 0 <= k < mods.len() ==> (#[trigger] modifier_of(mods[k])) is Some) && key_code(
        parts.last(),
    ) is Some {
        Some(
            Hotkey {
                ctrl: names_modifier(mods, Modifier::Ctrl),
                shift: names_modifier(mods, Modifier::Shift),
                alt: names_modifier(mods, Modifier::Alt),
                key: key_code(parts.last()).unwrap(),
            },
        )
    } else {
        None
    }
}

fn lower_code_of(c: char) -> (r: u32)
    ensures
        r == lower_code(c),
{
    let code = c as u32;
    if 65 <= code && code <= 90 {
        code + 32
    } else {
        code
    }
}

fn spells(t: &Vec<char>, name: &Vec<char>) -> (b: bool)
    ensures
        b == names(t@, name@),
{
    if t.len() != name.len() {
        return false;
    }
    let mut i: usize = 0;
    while i < t.len()
        invariant
            i <= t.len(),
            t.len() == name.len(),
            forall|j: int| 0 <= j < i ==> lower_code(#[trigger] t@[j]) == name@[j] as u32,
        decreases t.len() - i,
    {
        if lower_code_of(t[i]) != name[i] as u32 {
            return false;
        }
        i = i + 1;
    }
    true
}

fn modifier_named(t: &Vec<char>) -> (r: Option<Modifier>)
    ensures
        r == modifier_of(t@),
{
    let ctrl = vec!['c', 't', 'r', 'l'];
    let control = vec!['c', 'o', 'n', 't', 'r', 'o', 'l'];
    let shift = vec!['s', 'h', 'i', 'f', 't'];
    let alt = vec!['a', 'l', 't'];
    assert(ctrl@ == seq!['c', 't', 'r', 'l']);
    assert(control@ == seq!['c', 'o', 'n', 't', 'r', 'o', 'l']);
    assert(shift@ == seq!['s', 'h', 'i', 'f', 't']);
    assert(alt@ == seq!['a', 'l', 't']);
    if spells(t, &ctrl) || spells(t, &control) {
        Some(Modifier::Ctrl)
    } else if spells(t, &shift) {
        Some(Modifier::Shift)
    } else if spells(t, &alt) {
        Some(Modifier::Alt)
    } else {
        None
    }
}

fn key_named(t: &Vec<char>) -> (r: Option<u32>)
    ensures
        r == key_code(t@),
{
    if t.len() == 1 {
        let l = lower_code_of(t[0]);
        if 97 <= l && l <= 122 {
            return Some(l - 32);
        }
        let d = t[0] as u32;
        if 48 <= d && d <= 57 {
            return Some(d);
        }
        return None;
    }
    if t.len() == 2 && lower_code_of(t[0]) == 102 {
        let d = t[1] as u32;
        if 49 <= d && d <= 57 {
            return Some(0x70 + (d - 49));
        }
        return None;
    }
    if t.len() == 3 && lower_code_of(t[0]) == 102 && t[1] as u32 == 49 {
        let d = t[2] as u32;
        if 48 <= d && d <= 50 {
            return Some(0x70 + 9 + (d - 48));
        }
        return None;
    }
    None
}

proof fn lemma_plus_parts_nonempty(s: Seq<char>)
    ensures
        plus_parts(s).len() >= 1,
    decreases s.len(),
{
    if s.len() > 0 {
        lemma_plus_parts_nonempty(s.drop_last());
    }
}

/// Reads a hotkey string such as `Ctrl+Shift+V`; `None` when a part before
/// the last is no modifier name or the last is no key name.
pub fn parse_hotkey(s: &str) -> (r: Option<Hotkey>)
    ensures
        r == hotkey_of(s@),
{
    let n = s.unicode_len();
    let mut ctrl = false;
    let mut shift = false;
    let mut alt = false;
    let mut all_modifiers = true;
    let mut token: Vec<char> = Vec::new();
    let ghost mut done: Seq<Seq<char>> = Seq::empty();
    let mut i: usize = 0;
    assert(s@.take(0) =~= Seq::<char>::empty());
    while i < n
        invariant
            i <= n,
            n == s@.len(),
            plus_parts(s@.take(i as int)) == done.push(token@),
            all_modifiers == forall|k: int| 0 <= k < done.len() ==> (#[trigger] modifier_of(done[k])) is Some,
            ctrl == names_modifier(done, Modifier::Ctrl),
            shift == names_modifier(done, Modifier::Shift),
            alt == names_modifier(done, Modifier::Alt),
        decreases n - i,
    {
        let c = s.get_char(i);
        let ghost before = s@.take(i as int);
        assert(s@.take(i + 1).drop_last() =~= before);
        assert(s@.take(i + 1).last() == c);
        proof {
            lemma_plus_parts_nonempty(before);
        }
        if c == '+' {
            let m = modifier_named(&token);
            let ghost old_done = done;
            proof {
                done = done.push(token@);
            }
            assert forall|mm: Modifier| names_modifier(done, mm) <==> names_modifier(old_done, mm)
                || modifier_of(token@) == Some(mm) by {
                if names_modifier(done, mm) {
                    let k = choose|k: int| 0 <= k < done.len() && modifier_of(#[trigger] done[k]) == Some(mm);
                    if k < old_done.len() {
                        assert(done[k] == old_done[k]);
                    }
                }
                if names_modifier(old_done, mm) {
                    let k = choose|k: int| 0 <= k < old_done.len() && modifier_of(#[trigger] old_done[k]) == Some(mm);
                    assert(done[k] == old_done[k]);
                }
                if modifier_of(token@) == Some(mm) {
                    assert(done[old_done.len() as int] == token@);
                }
            }
            assert((forall|k: int| 0 <= k < done.len() ==> (#[trigger] modifier_of(done[k])) is Some) <==> (
            forall|k: int| 0 <= k < old_done.len() ==> (#[trigger] modifier_of(old_done[k])) is Some)
                && modifier_of(token@) is Some) by {
                assert forall|k: int| 0 <= k < old_done.len() implies done[k] == old_done[k] by {}
                assert(done[old_done.len() as int] == token@);
            }
            match m {
                Some(Modifier::Ctrl) => {
                    ctrl = true;
                },
                Some(Modifier::Shift) => {
                    shift = true;
                },
                Some(Modifier::Alt) => {
                    alt = true;
                },
                None => {
                    all_modifiers = false;
                },
            }
            token = Vec::new();
            assert(plus_parts(s@.take(i + 1)) =~= done.push(token@));
        } else {
            token.push(c);
            assert(plus_parts(s@.take(i + 1)) =~= done.push(token@));
        }
        i = i + 1;
    }
    assert(s@.take(n as int) =~= s@);
    let ghost parts = plus_parts(s@);
    assert(parts.drop_last() =~= done);
    assert(parts.last() == token@);
    if !all_modifiers {
        return None;
    }
    match key_named(&token) {
        Some(key) => Some(Hotkey { ctrl, shift, alt, key }),
        None => None,
    }
}

/// Whether `s` and `t` are the same text but for the case of ASCII letters.
pub open spec fn same_but_case(s: Seq<char>, t: Seq<char>) -> bool {
    &&& s.len() == t.len()
    &&& forall|i: int| 0 <= i < s.len() ==> lower_code(#[trigger] s[i]) == lower_code(t[i])
}

proof fn lemma_plus_parts_same_but_case(s: Seq<char>, t: Seq<char>)
    requires
        same_but_case(s, t),
    ensures
        plus_parts(s).len() == plus_parts(t).len(),
        forall|k: int|
            0 <= k < plus_parts(s).len() ==> same_but_case(#[trigger] plus_parts(s)[k], plus_parts(t)[k]),
    decreases s.len(),
{
    if s.len() > 0 {
        let s0 = s.drop_last();
        let t0 = t.drop_last();
        assert forall|i: int| 0 <= i < s0.len() implies lower_code(#[trigger] s0[i]) == lower_code(t0[i]) by {
            assert(lower_code(s[i]) == lower_code(t[i]));
        }
        lemma_plus_parts_same_but_case(s0, t0);
        lemma_plus_parts_nonempty(s0);
        let ps = plus_parts(s0);
        let pt = plus_parts(t0);
        let n = s.len() - 1;
        assert(lower_code(s[n]) == lower_code(t[n]));
        assert(s.last() == '+' <==> t.last() == '+') by {
            assert('+' as u32 == 43);
            vstd::utf8::char_u32_cast('+', 43);
            if s.last() == '+' {
                vstd::utf8::char_u32_cast(t.last(), 43);
            }
            if t.last() == '+' {
                vstd::utf8::char_u32_cast(s.last(), 43);
            }
        }
        if s.last() != '+' {
            let last = ps.len() - 1;
            assert(same_but_case(ps[last], pt[last]));
            let a = ps[last].push(s.last());
            let b = pt[last].push(t.last());
            assert forall|i: int| 0 <= i < a.len() implies lower_code(#[trigger] a[i]) == lower_code(b[i]) by {
                if i < ps[last].len() {
                    assert(lower_code(ps[last][i]) == lower_code(pt[last][i]));
                }
            }
            assert(same_but_case(a, b));
        }
    }
}

proof fn lemma_part_same_but_case(a: Seq<char>, b: Seq<char>)
    requires
        same_but_case(a, b),
    ensures
        modifier_of(a) == modifier_of(b),
        key_code(a) == key_code(b),
{
    assert forall|name: Seq<char>| names(a, name) <==> names(b, name) by {
        if names(a, name) {
            assert forall|i: int| 0 <= i < b.len() implies lower_code(#[trigger] b[i]) == name[i] as u32 by {
                assert(lower_code(a[i]) == lower_code(b[i]));
            }
        }
        if names(b, name) {
            assert forall|i: int| 0 <= i < a.len() implies lower_code(#[trigger] a[i]) == name[i] as u32 by {
                assert(lower_code(a[i]) == lower_code(b[i]));
                assert(lower_code(b[i]) == name[i] as u32);
            }
        }
    }
    if a.len() >= 1 {
        assert(lower_code(a[0]) == lower_code(b[0]));
    }
    if a.len() >= 2 {
        assert(lower_code(a[1]) == lower_code(b[1]));
    }
    if a.len() >= 3 {
        assert(lower_code(a[2]) == lower_code(b[2]));
    }
}

/// The hotkey setting is read without regard to the case of letters: two
/// strings that differ only in that describe the same hotkey, or both none.
pub proof fn lemma_hotkey_case_insensitive(s: Seq<char>, t: Seq<char>)
    requires
        same_but_case(s, t),
    ensures
        hotkey_of(s) == hotkey_of(t),
{
    lemma_plus_parts_same_but_case(s, t);
    lemma_plus_parts_nonempty(s);
    let ps = plus_parts(s);
    let pt = plus_parts(t);
    let ms = ps.drop_last();
    let mt = pt.drop_last();
    assert forall|k: int| 0 <= k < ms.len() implies #[trigger] modifier_of(ms[k]) == modifier_of(mt[k]) by {
        assert(same_but_case(ps[k], pt[k]));
        lemma_part_same_but_case(ps[k], pt[k]);
    }
    lemma_part_same_but_case(ps.last(), pt.last());
    assert forall|m: Modifier| names_modifier(ms, m) == names_modifier(mt, m) by {
        if names_modifier(ms, m) {
            let k = choose|k: int| 0 <= k < ms.len() && modifier_of(#[trigger] ms[k]) == Some(m);
            assert(modifier_of(mt[k]) == Some(m));
        }
        if names_modifier(mt, m) {
            let k = choose|k: int| 0 <= k < mt.len() && modifier_of(#[trigger] mt[k]) == Some(m);
            assert(modifier_of(ms[k]) == modifier_of(mt[k]));
        }
    }
    assert((forall|k: int| 0 <= k < ms.len() ==> (#[trigger] modifier_of(ms[k])) is Some) == (forall|
        k: int,
    | 0 <= k < mt.len() ==> (#[trigger] modifier_of(mt[k])) is Some)) by {
        if forall|k: int| 0 <= k < ms.len() ==> (#[trigger] modifier_of(ms[k])) is Some {
            assert forall|k: int| 0 <= k < mt.len() implies (#[trigger] modifier_of(mt[k])) is Some by {
                assert(modifier_of(ms[k]) == modifier_of(mt[k]));
            }
        }
        if forall|k: int| 0 <= k < mt.len() ==> (#[trigger] modifier_of(mt[k])) is Some {
            assert forall|k: int| 0 <= k < ms.len() implies (#[trigger] modifier_of(ms[k])) is Some by {
                assert(modifier_of(ms[k]) == modifier_of(mt[k]));
            }
        }
    }
}

} // verus!
