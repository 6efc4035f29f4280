//! What a user can ask for by name: a level of optimization, and the forms
//! in which a program is emitted.

use vstd::prelude::*;
use vstd::string::StringSliceAdditionalSpecFns;

use crate::optimizer::OptLevel;

verus! {

/// A form in which a program can be asked to be emitted.
#[derive(Clone, Copy, PartialEq, Eq, Debug, Structural)]
pub enum Emission {
    /// C source.
    C,
    /// A listing of the instructions.
    Ir,
    /// Java source.
    Java,
    /// Rust source.
    Rust,
}

/// The level that a text names: `0`, `1` and `3` name the levels apart from
/// the default one, which every other text names.
pub open spec fn level_named(name: Seq<u8>) -> OptLevel {
    if name == "0".spec_bytes() {
        OptLevel::No
    } else if name == "1".spec_bytes() {
        OptLevel::Less
    } else if name == "3".spec_bytes() {
        OptLevel::Aggressive
    } else {
        OptLevel::Default
    }
}

/// The form that a text names, if it names one: `c`, `ir`, `java` or
/// `rust`.
pub open spec fn emission_named(name: Seq<u8>) -> Option<Emission> {
    if name == "c".spec_bytes() {
        Some(Emission::C)
    } else if name == "ir".spec_bytes() {
        Some(Emission::Ir)
    } else if name == "java".spec_bytes() {
        Some(Emission::Java)
    } else if name == "rust".spec_bytes() {
        Some(Emission::Rust)
    } else {
        None
    }
}

/// The index of the first comma of `s` at or behind index `k`, or `s.len()`.
pub open spec fn comma_from(s: Seq<u8>, k: int) -> int
    decreases s.len() - k,
{
    if k < 0 || k >= s.len() {
        s.len() as int
    } else if s[k] == 0x2c {
        k
    } else {
        comma_from(s, k + 1)
    }
}

/// The forms that a list names whose entries are set apart by commas, in
/// the order of the list. An entry that names no form is passed over.
pub open spec fn emissions_named(list: Seq<u8>) -> Seq<Emission>
    decreases list.len(),
{
    let end = comma_from(list, 0);
    let first = match emission_named(list.take(end)) {
        Some(form) => seq![form],
        None => Seq::empty(),
    };
    if 0 <= end < list.len() {
        first + emissions_named(list.skip(end + 1))
    } else {
        first
    }
}

/// The first comma of a suffix is the first comma of the whole list from
/// there.
proof fn lemma_comma_from_skip(s: Seq<u8>, n: int, k: int)
    requires
        0 <= n <= s.len(),
        0 <= k,
    ensures
        comma_from(s.skip(n), k) + n == comma_from(s, k + n),
        k <= comma_from(s.skip(n), k) || comma_from(s.skip(n), k) == s.len() - n,
        comma_from(s.skip(n), k) <= s.len() - n,
    decreases s.len() - k,
{
    let t = s.skip(n);
    if k < t.len() {
        assert(t[k] == s[k + n]);
        if t[k] != 0x2c {
            lemma_comma_from_skip(s, n, k + 1);
        }
    }
}

/// Tells whether `bytes[from..to]` is the text `name`.
fn field_is(bytes: &[u8], from: usize, to: usize, name: &str) -> (same: bool)
    requires
        from <= to <= bytes@.len(),
    ensures
        same == (bytes@.subrange(from as int, to as int) == name.spec_bytes()),
{
    let wanted = name.as_bytes();
    let ghost field = bytes@.subrange(from as int, to as int);
    if to - from != wanted.len() {
        return false;
    }
    let mut i: usize = 0;
    while i < wanted.len()
        invariant
            from <= to <= bytes@.len(),
            to - from == wanted@.len(),
            i <= wanted@.len(),
            field == bytes@.subrange(from as int, to as int),
            wanted@ == name.spec_bytes(),
            forall|k: int| 0 <= k < i ==> bytes@[from + k] == wanted@[k],
        decreases wanted.len() - i,
    {
        if bytes[from + i] != wanted[i] {
            proof {
                assert(field[i as int] != wanted@[i as int]);
            }
            return false;
        }
        i = i + 1;
    }
    proof {
        assert(field =~= wanted@);
    }
    true
}

/// Gives the level of optimization that a text names.
pub fn opt_level(name: &str) -> (level: OptLevel)
    ensures
        level == level_named(name.spec_bytes()),
{
    let bytes = name.as_bytes();
    let end = bytes.len();
    proof {
        assert(bytes@.subrange(0, end as int) =~= bytes@);
    }
    if field_is(bytes, 0, end, "0") {
        OptLevel::No
    } else if field_is(bytes, 0, end, "1") {
        OptLevel::Less
    } else if field_is(bytes, 0, end, "3") {
        OptLevel::Aggressive
    } else {
        OptLevel::Default
    }
}

/// Gives the form that `bytes[from..to]` names.
fn emission_at(bytes: &[u8], from: usize, to: usize) -> (form: Option<Emission>)
    requires
        from <= to <= bytes@.len(),
    ensures
        form == emission_named(bytes@.subrange(from as int, to as int)),
{
    if field_is(bytes, from, to, "c") {
        Some(Emission::C)
    } else if field_is(bytes, from, to, "ir") {
        Some(Emission::Ir)
    } else if field_is(bytes, from, to, "java") {
        Some(Emission::Java)
    } else if field_is(bytes, from, to, "rust") {
        Some(Emission::Rust)
    } else {
        None
    }
}

/// Gives the forms that a list names whose entries are set apart by commas.
pub fn emissions(list: &str) -> (forms: Vec<Emission>)
    ensures
        forms@ == emissions_named(list.spec_bytes()),
{
    let bytes = list.as_bytes();
    let mut forms: Vec<Emission> = Vec::new();
    let mut start: usize = 0;
    let mut more: bool = true;
    proof {
        assert(bytes@.skip(0) =~= bytes@);
    }
    while more
        invariant
            start <= bytes@.len(),
            more ==> forms@ + emissions_named(bytes@.skip(start as int)) == emissions_named(
                bytes@,
            ),
            !more ==> forms@ == emissions_named(bytes@),
        decreases bytes@.len() - start, if more { 1int } else { 0int },
    {
        let ghost rest = bytes@.skip(start as int);
        let mut end: usize = start;
        while end < bytes.len() && bytes[end] != 0x2c
            invariant
                start <= end <= bytes@.len(),
                comma_from(bytes@, start as int) == comma_from(bytes@, end as int),
            decreases bytes@.len() - end,
        {
            end = end + 1;
        }
        proof {
            lemma_comma_from_skip(bytes@, start as int, 0);
            assert(rest.take(end - start) =~= bytes@.subrange(start as int, end as int));
        }
        let ghost before = forms@;
        match emission_at(bytes, start, end) {
            Some(form) => {
                forms.push(form);
            },
            None => {},
        }
        if end < bytes.len() {
            proof {
                assert(rest.skip(end - start + 1) =~= bytes@.skip(end + 1));
                assert(forms@ + emissions_named(bytes@.skip(end + 1)) =~= before
                    + emissions_named(rest));
            }
            start = end + 1;
        } else {
            proof {
                assert(forms@ =~= before + emissions_named(rest));
            }
            more = false;
        }
    }
    forms
}

} // verus!
