//! The reserved words of the assembly language.
use vstd::prelude::*;

verus! {

/// An operator word of the assembly language.
#[derive(Debug, Clone, Copy, PartialEq, Eq, Structural)]
pub enum Mnemonic {
    Add,
    Sub,
    Dup,
    Swap,
    Print,
    Ret,
    Pop,
    Mul,
    Mod,
    Div,
    Load,
    Store,
    Eq,
    Lt,
    Gte,
    Push,
    Jmp,
    Jz,
}

/// A meta operator word of the assembly language.
#[derive(Debug, Clone, Copy, PartialEq, Eq, Structural)]
pub enum Meta {
    Point,
    Push,
    PushStr,
}

/// The spelling of an operator word, as bytes.
pub open spec fn mnemonic_text(m: Mnemonic) -> Seq<u8> {
    match m {
        Mnemonic::Add => seq![97u8, 100u8, 100u8],
        Mnemonic::Sub => seq![115u8, 117u8, 98u8],
        Mnemonic::Dup => seq![100u8, 117u8, 112u8],
        Mnemonic::Swap => seq![115u8, 119u8, 97u8, 112u8],
        Mnemonic::Print => seq![112u8, 114u8, 105u8, 110u8, 116u8],
        Mnemonic::Ret => seq![114u8, 101u8, 116u8],
        Mnemonic::Pop => seq![112u8, 111u8, 112u8],
        Mnemonic::Mul => seq![109u8, 117u8, 108u8],
        Mnemonic::Mod => seq![109u8, 111u8, 100u8],
        Mnemonic::Div => seq![100u8, 105u8, 118u8],
        Mnemonic::Load => seq![108u8, 111u8, 97u8, 100u8],
        Mnemonic::Store => seq![115u8, 116u8, 111u8, 114u8, 101u8],
        Mnemonic::Eq => seq![101u8, 113u8],
        Mnemonic::Lt => seq![108u8, 116u8],
        Mnemonic::Gte => seq![103u8, 116u8, 101u8],
        Mnemonic::Push => seq![112u8, 117u8, 115u8, 104u8],
        Mnemonic::Jmp => seq![106u8, 109u8, 112u8],
        Mnemonic::Jz => seq![106u8, 122u8],
    }
}

/// The spelling of a meta operator word, as bytes.
pub open spec fn meta_text(m: Meta) -> Seq<u8> {
    match m {
        Meta::Point => seq![64u8, 112u8, 111u8, 105u8, 110u8, 116u8],
        Meta::Push => seq![64u8, 112u8, 117u8, 115u8, 104u8],
        Meta::PushStr => seq![64u8, 112u8, 117u8, 115u8, 104u8, 115u8, 116u8, 114u8],
    }
}

/// The operator word spelled by `w`, if any.
pub open spec fn mnemonic_of(w: Seq<u8>) -> Option<Mnemonic> {
    if w == mnemonic_text(Mnemonic::Add) {
        Some(Mnemonic::Add)
    } else if w == mnemonic_text(Mnemonic::Sub) {
        Some(Mnemonic::Sub)
    } else if w == mnemonic_text(Mnemonic::Dup) {
        Some(Mnemonic::Dup)
    } else if w == mnemonic_text(Mnemonic::Swap) {
        Some(Mnemonic::Swap)
    } else if w == mnemonic_text(Mnemonic::Print) {
        Some(Mnemonic::Print)
    } else if w == mnemonic_text(Mnemonic::Ret) {
        Some(Mnemonic::Ret)
    } else if w == mnemonic_text(Mnemonic::Pop) {
        Some(Mnemonic::Pop)
    } else if w == mnemonic_text(Mnemonic::Mul) {
        Some(Mnemonic::Mul)
    } else if w == mnemonic_text(Mnemonic::Mod) {
        Some(Mnemonic::Mod)
    } else if w == mnemonic_text(Mnemonic::Div) {
        Some(Mnemonic::Div)
    } else if w == mnemonic_text(Mnemonic::Load) {
        Some(Mnemonic::Load)
    } else if w == mnemonic_text(Mnemonic::Store) {
        Some(Mnemonic::Store)
    } else if w == mnemonic_text(Mnemonic::Eq) {
        Some(Mnemonic::Eq)
    } else if w == mnemonic_text(Mnemonic::Lt) {
        Some(Mnemonic::Lt)
    } else if w == mnemonic_text(Mnemonic::Gte) {
        Some(Mnemonic::Gte)
    } else if w == mnemonic_text(Mnemonic::Push) {
        Some(Mnemonic::Push)
    } else if w == mnemonic_text(Mnemonic::Jmp) {
        Some(Mnemonic::Jmp)
    } else if w == mnemonic_text(Mnemonic::Jz) {
        Some(Mnemonic::Jz)
    } else {
        None
    }
}

/// The meta operator word spelled by `w`, if any.
pub open spec fn meta_of(w: Seq<u8>) -> Option<Meta> {
    if w == meta_text(Meta::Point) {
        Some(Meta::Point)
    } else if w == meta_text(Meta::Push) {
        Some(Meta::Push)
    } else if w == meta_text(Meta::PushStr) {
        Some(Meta::PushStr)
    } else {
        None
    }
}

/// Whether `b[start..end]` spells `word`.
pub fn spells(b: &[u8], start: usize, end: usize, word: &[u8]) -> (r: bool)
    requires
        start <= end <= b@.len(),
    ensures
        r == (b@.subrange(start as int, end as int) == word@),
{
    if end - start != word.len() {
        return false;
    }
    let mut i: usize = 0;
    while i < word.len()
        invariant
            end - start == word@.len(),
            start <= end <= b@.len(),
            i <= word@.len(),
            forall|j: int| 0 <= j < i ==> b@[start + j] == word@[j],
        decreases word@.len() - i,
    {
        if b[start + i] != word[i] {
            assert(b@.subrange(start as int, end as int)[i as int] != word@[i as int]);
            return false;
        }
        i = i + 1;
    }
    assert(b@.subrange(start as int, end as int) =~= word@);
    true
}

/// The operator word spelled by `b[start..end]`, if any.
pub fn mnemonic_at(b: &[u8], start: usize, end: usize) -> (r: Option<Mnemonic>)
    requires
        start <= end <= b@.len(),
    ensures
        r == mnemonic_of(b@.subrange(start as int, end as int)),
{
    let word: [u8; 3] = [97, 100, 100];
    proof {
        assert(word@ =~= mnemonic_text(Mnemonic::Add));
    }
    if spells(b, start, end, &word) {
        return Some(Mnemonic::Add);
    }
    let word: [u8; 3] = [115, 117, 98];
    proof {
        assert(word@ =~= mnemonic_text(Mnemonic::Sub));
    }
    if spells(b, start, end, &word) {
        return Some(Mnemonic::Sub);
    }
    let word: [u8; 3] = [100, 117, 112];
    proof {
        assert(word@ =~= mnemonic_text(Mnemonic::Dup));
    }
    if spells(b, start, end, &word) {
        return Some(Mnemonic::Dup);
    }
    let word: [u8; 4] = [115, 119, 97, 112];
    proof {
        assert(word@ =~= mnemonic_text(Mnemonic::Swap));
    }
    if spells(b, start, end, &word) {
        return Some(Mnemonic::Swap);
    }
    let word: [u8; 5] = [112, 114, 105, 110, 116];
    proof {
        assert(word@ =~= mnemonic_text(Mnemonic::Print));
    }
    if spells(b, start, end, &word) {
        return Some(Mnemonic::Print);
    }
    let word: [u8; 3] = [114, 101, 116];
    proof {
        assert(word@ =~= mnemonic_text(Mnemonic::Ret));
    }
    if spells(b, start, end, &word) {
        return Some(Mnemonic::Ret);
    }
    let word: [u8; 3] = [112, 111, 112];
    proof {
        assert(word@ =~= mnemonic_text(Mnemonic::Pop));
    }
    if spells(b, start, end, &word) {
        return Some(Mnemonic::Pop);
    }
    let word: [u8; 3] = [109, 117, 108];
    proof {
        assert(word@ =~= mnemonic_text(Mnemonic::Mul));
    }
    if spells(b, start, end, &word) {
        return Some(Mnemonic::Mul);
    }
    let word: [u8; 3] = [109, 111, 100];
    proof {
        assert(word@ =~= mnemonic_text(Mnemonic::Mod));
    }
    if spells(b, start, end, &word) {
        return Some(Mnemonic::Mod);
    }
    let word: [u8; 3] = [100, 105, 118];
    proof {
        assert(word@ =~= mnemonic_text(Mnemonic::Div));
    }
    if spells(b, start, end, &word) {
        return Some(Mnemonic::Div);
    }
    let word: [u8; 4] = [108, 111, 97, 100];
    proof {
        assert(word@ =~= mnemonic_text(Mnemonic::Load));
    }
    if spells(b, start, end, &word) {
        return Some(Mnemonic::Load);
    }
    let word: [u8; 5] = [115, 116, 111, 114, 101];
    proof {
        assert(word@ =~= mnemonic_text(Mnemonic::Store));
    }
    if spells(b, start, end, &word) {
        return Some(Mnemonic::Store);
    }
    let word: [u8; 2] = [101, 113];
    proof {
        assert(word@ =~= mnemonic_text(Mnemonic::Eq));
    }
    if spells(b, start, end, &word) {
        return Some(Mnemonic::Eq);
    }
    let word: [u8; 2] = [108, 116];
    proof {
        assert(word@ =~= mnemonic_text(Mnemonic::Lt));
    }
    if spells(b, start, end, &word) {
        return Some(Mnemonic::Lt);
    }
    let word: [u8; 3] = [103, 116, 101];
    proof {
        assert(word@ =~= mnemonic_text(Mnemonic::Gte));
    }
    if spells(b, start, end, &word) {
        return Some(Mnemonic::Gte);
    }
    let word: [u8; 4] = [112, 117, 115, 104];
    proof {
        assert(word@ =~= mnemonic_text(Mnemonic::Push));
    }
    if spells(b, start, end, &word) {
        return Some(Mnemonic::Push);
    }
    let word: [u8; 3] = [106, 109, 112];
    proof {
        assert(word@ =~= mnemonic_text(Mnemonic::Jmp));
    }
    if spells(b, start, end, &word) {
        return Some(Mnemonic::Jmp);
    }
    let word: [u8; 2] = [106, 122];
    proof {
        assert(word@ =~= mnemonic_text(Mnemonic::Jz));
    }
    if spells(b, start, end, &word) {
        return Some(Mnemonic::Jz);
    }
    None
}

/// The meta operator word spelled by `b[start..end]`, if any.
pub fn meta_at(b: &[u8], start: usize, end: usize) -> (r: Option<Meta>)
    requires
        start <= end <= b@.len(),
    ensures
        r == meta_of(b@.subrange(start as int, end as int)),
{
    let word: [u8; 6] = [64, 112, 111, 105, 110, 116];
    proof {
        assert(word@ =~= meta_text(Meta::Point));
    }
    if spells(b, start, end, &word) {
        return Some(Meta::Point);
    }
    let word: [u8; 5] = [64, 112, 117, 115, 104];
    proof {
        assert(word@ =~= meta_text(Meta::Push));
    }
    if spells(b, start, end, &word) {
        return Some(Meta::Push);
    }
    let word: [u8; 8] = [64, 112, 117, 115, 104, 115, 116, 114];
    proof {
        assert(word@ =~= meta_text(Meta::PushStr));
    }
    if spells(b, start, end, &word) {
        return Some(Meta::PushStr);
    }
    None
}

} // verus!
