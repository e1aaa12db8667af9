//! A small, fully verified client of the engine: an injected text
//! encoding, an injected content leaf, and a derived key that renders
//! the content per the encoding — replacing each ":-)" with "smile"
//! under the ascii encoding. Unverified clients whose content lives
//! elsewhere can still call `render` for the same transformation.

use vstd::prelude::*;

use crate::base::Bytes;
use crate::base::Logic;
use crate::base::ReadList;
use crate::base::Step;
use crate::base::StepSt;
use crate::base::Value;

verus! {

/// The injected key holding the encoding tag.
pub const ENCODING_KEY: u64 = 1;

/// The injected key holding the text content.
pub const CONTENT_KEY: u64 = 2;

/// The derived key holding the rendered text.
pub const RENDERED_KEY: u64 = 3;

/// The bytes of the ascii encoding tag.
pub open spec fn ascii_tag() -> Bytes {
    seq![97u8, 115u8, 99u8, 105u8, 105u8]
}

/// The bytes of the smiley that the ascii rendering spells out.
pub open spec fn smiley() -> Bytes {
    seq![58u8, 45u8, 41u8]
}

/// The replacement word.
pub open spec fn smile_word() -> Bytes {
    seq![115u8, 109u8, 105u8, 108u8, 101u8]
}

/// The ascii rendering of `s`: every ":-)" becomes "smile", scanning
/// left to right without overlap.
pub open spec fn smile_fold(s: Bytes) -> Bytes
    decreases s.len(),
{
    if s.len() == 0 {
        Seq::empty()
    } else if s.len() >= 3 && s[0] == 58 && s[1] == 45 && s[2] == 41 {
        smile_word() + smile_fold(s.skip(3))
    } else {
        seq![s[0]] + smile_fold(s.skip(1))
    }
}

/// Render `content` for the chosen encoding: the ascii rendering, or
/// the content unchanged.
pub fn render(content: &Value, ascii: bool) -> (r: Value)
    ensures
        r@ == if ascii {
            smile_fold(content@)
        } else {
            content@
        },
{
    if ascii {
        let folded = smile_fold_x(&content.bytes, 0, Vec::new());
        proof {
            assert(content.bytes@.skip(0) =~= content@);
            assert(Seq::<u8>::empty() + smile_fold(content@) =~= smile_fold(content@));
        }
        Value::new(folded)
    } else {
        content.clone()
    }
}

/// The ascii rendering of `s` from position `i` on, appended to `acc`.
fn smile_fold_x(s: &Vec<u8>, i: usize, acc: Vec<u8>) -> (r: Vec<u8>)
    requires
        i <= s@.len(),
    ensures
        r@ == acc@ + smile_fold(s@.skip(i as int)),
    decreases s@.len() - i,
{
    if i == s.len() {
        proof {
            assert(s@.skip(i as int) =~= Seq::<u8>::empty());
            assert(acc@ + Seq::<u8>::empty() =~= acc@);
        }
        acc
    } else if s.len() - i >= 3 && s[i] == 58 && s[i + 1] == 45 && s[i + 2] == 41 {
        let mut acc2 = acc;
        acc2.push(115);
        acc2.push(109);
        acc2.push(105);
        acc2.push(108);
        acc2.push(101);
        let ghost tail = s@.skip(i as int);
        proof {
            assert(tail.len() >= 3);
            assert(tail[0] == 58 && tail[1] == 45 && tail[2] == 41);
            assert(tail.skip(3) =~= s@.skip(i as int + 3));
            assert(acc2@ =~= acc@ + smile_word());
        }
        let r = smile_fold_x(s, i + 3, acc2);
        proof {
            assert((acc@ + smile_word()) + smile_fold(s@.skip(i as int + 3)) =~= acc@ + (
            smile_word() + smile_fold(s@.skip(i as int + 3))));
        }
        r
    } else {
        let mut acc2 = acc;
        acc2.push(s[i]);
        let ghost tail = s@.skip(i as int);
        proof {
            assert(tail[0] == s@[i as int]);
            assert(!(tail.len() >= 3 && tail[0] == 58 && tail[1] == 45 && tail[2] == 41));
            assert(tail.skip(1) =~= s@.skip(i as int + 1));
            assert(acc2@ =~= acc@ + seq![s@[i as int]]);
        }
        let r = smile_fold_x(s, i + 1, acc2);
        proof {
            assert((acc@ + seq![s@[i as int]]) + smile_fold(s@.skip(i as int + 1)) =~= acc@ + (
            seq![s@[i as int]] + smile_fold(s@.skip(i as int + 1))));
        }
        r
    }
}

/// Whether two values hold the same bytes.
fn bytes_eq(a: &Value, b: &Value) -> (r: bool)
    ensures
        r == (a@ == b@),
{
    if a.bytes.len() != b.bytes.len() {
        return false;
    }
    let mut i: usize = 0;
    while i < a.bytes.len()
        invariant
            i <= a.bytes.len(),
            a.bytes@.len() == b.bytes@.len(),
            forall|j: int| 0 <= j < i ==> a.bytes@[j] == b.bytes@[j],
        decreases a.bytes.len() - i,
    {
        if a.bytes[i] != b.bytes[i] {
            return false;
        }
        i = i + 1;
    }
    proof {
        assert(a@ =~= b@);
    }
    true
}

/// Whether `v` holds the ascii encoding tag.
fn is_ascii_tag(v: &Value) -> (r: bool)
    ensures
        r == (v@ == ascii_tag()),
{
    if v.bytes.len() != 5 {
        proof {
            assert(ascii_tag().len() == 5);
        }
        return false;
    }
    let r = v.bytes[0] == 97 && v.bytes[1] == 115 && v.bytes[2] == 99 && v.bytes[3] == 105
        && v.bytes[4] == 105;
    proof {
        if r {
            assert(v@ =~= ascii_tag());
        } else {
            assert(v@ != ascii_tag());
        }
    }
    r
}

/// The verified key logic over in-memory text: `RENDERED_KEY` reads
/// the encoding, then the content, and finishes with the rendering.
pub struct TextLogic {}

impl Logic for TextLogic {
    open spec fn injected_spec(&self, key: u64) -> bool {
        key == ENCODING_KEY || key == CONTENT_KEY
    }

    open spec fn step_spec(&self, key: u64, reads: ReadList) -> StepSt {
        if reads.len() == 0 {
            StepSt::Need(ENCODING_KEY)
        } else if reads.len() == 1 {
            StepSt::Need(CONTENT_KEY)
        } else {
            StepSt::Done(
                if reads[0].1 == ascii_tag() {
                    smile_fold(reads[1].1)
                } else {
                    reads[1].1
                },
            )
        }
    }

    open spec fn eq_spec(&self, key: u64, a: Bytes, b: Bytes) -> bool {
        a == b
    }

    fn injected(&self, key: u64) -> (r: bool)
        ensures
            r == self.injected_spec(key),
    {
        key == ENCODING_KEY || key == CONTENT_KEY
    }

    fn step(&self, key: u64, reads: &Vec<(u64, Value)>) -> (r: Step)
        ensures
            r@ == self.step_spec(key, crate::base::reads_of(reads@)),
    {
        if reads.len() == 0 {
            Step::Need(ENCODING_KEY)
        } else if reads.len() == 1 {
            Step::Need(CONTENT_KEY)
        } else {
            let ascii = is_ascii_tag(&reads[0].1);
            Step::Done(render(&reads[1].1, ascii))
        }
    }

    fn val_eq(&self, key: u64, a: &Value, b: &Value) -> (r: bool)
        ensures
            r == self.eq_spec(key, a@, b@),
    {
        bytes_eq(a, b)
    }
}

} // verus!
