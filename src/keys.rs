use vstd::prelude::*;

verus! {

/// Position of the first `x` in `s`, if any.
pub open spec fn first_position<T>(s: Seq<T>, x: T) -> Option<int> {
    if exists|i: int| 0 <= i < s.len() && s[i] == x {
        Some(choose|i: int| 0 <= i < s.len() && s[i] == x && forall|j: int| 0 <= j < i ==> s[j] != x)
    } else {
        None
    }
}

proof fn lemma_first_position<T>(s: Seq<T>, x: T, i: int)
    requires
        0 <= i < s.len(),
        s[i] == x,
        forall|j: int| 0 <= j < i ==> s[j] != x,
    ensures
        first_position(s, x) == Some(i),
{
    let k = choose|k: int| 0 <= k < s.len() && s[k] == x && forall|j: int| 0 <= j < k ==> s[j] != x;
    assert(0 <= k < s.len() && s[k] == x && forall|j: int| 0 <= j < k ==> s[j] != x);
    if k < i {
        assert(s[k] != x);
    } else if k > i {
        assert(s[i] != x);
    }
}

/// The key code whose row of the keyboard mapping first lists `sym`: the
/// mapping holds `per_keycode` symbols for each key code from `min_keycode`
/// on. None when no row lists it or the code would not fit a key code.
pub open spec fn keycode_of(keysyms: Seq<u32>, per_keycode: int, min_keycode: int, sym: u32) -> Option<u8> {
    match first_position(keysyms, sym) {
        Some(i) => if per_keycode > 0 && i / per_keycode + min_keycode <= 255 {
            Some((i / per_keycode + min_keycode) as u8)
        } else {
            None
        },
        None => None,
    }
}

/// Looks up the key code of key symbol `sym` in a keyboard mapping.
pub fn keycode_for(keysyms: &[u32], per_keycode: u8, min_keycode: u8, sym: u32) -> (r: Option<u8>)
    ensures
        r == keycode_of(keysyms@, per_keycode as int, min_keycode as int, sym),
{
    let mut i: usize = 0;
    while i < keysyms.len()
        invariant
            0 <= i <= keysyms@.len(),
            forall|j: int| 0 <= j < i ==> keysyms@[j] != sym,
        decreases keysyms.len() - i,
    {
        if keysyms[i] == sym {
            proof {
                lemma_first_position(keysyms@, sym, i as int);
            }
            if per_keycode == 0 {
                return None;
            }
            let row = i / per_keycode as usize;
            if row > 255 - min_keycode as usize {
                return None;
            }
            return Some(row as u8 + min_keycode);
        }
        i += 1;
    }
    None
}

/// The index of the modifier whose group of `per_modifier` key codes first
/// holds `key`, in a modifier mapping that lists the groups one after the
/// other.
pub open spec fn modifier_of(keycodes: Seq<u8>, per_modifier: int, key: u8) -> Option<int> {
    match first_position(keycodes, key) {
        Some(i) => if per_modifier > 0 {
            Some(i / per_modifier)
        } else {
            None
        },
        None => None,
    }
}

/// Finds which modifier key code `key` belongs to.
pub fn modifier_index(keycodes: &[u8], per_modifier: usize, key: u8) -> (r: Option<usize>)
    ensures
        r matches Some(m) ==> modifier_of(keycodes@, per_modifier as int, key) == Some(m as int),
        r is None ==> modifier_of(keycodes@, per_modifier as int, key) is None,
{
    if per_modifier == 0 {
        return None;
    }
    let mut i: usize = 0;
    while i < keycodes.len()
        invariant
            0 <= i <= keycodes@.len(),
            per_modifier > 0,
            forall|j: int| 0 <= j < i ==> keycodes@[j] != key,
        decreases keycodes.len() - i,
    {
        if keycodes[i] == key {
            proof {
                lemma_first_position(keycodes@, key, i as int);
            }
            return Some(i / per_modifier);
        }
        i += 1;
    }
    None
}

} // verus!
