//! The users file: lines of text separated by newline bytes.
use vstd::prelude::*;

use vstd::utf8::{decode_utf8, valid_utf8};

use crate::text::text_from_utf8;

verus! {

pub const NEWLINE: u8 = 10;

pub const CARRIAGE_RETURN: u8 = 13;

/// Why a listing could not be produced.
#[derive(Clone, Copy, Debug, PartialEq, Eq, Structural)]
pub enum ListError {
    /// The file does not exist or cannot be opened.
    FileOpen,
    /// A line is not well-formed text, or reading it failed.
    LineDecode,
}

/// The pieces of `b` between newline bytes: one more than there are newlines.
pub open spec fn pieces(b: Seq<u8>) -> Seq<Seq<u8>>
    decreases b.len(),
{
    if b.len() == 0 {
        seq![Seq::empty()]
    } else {
        let p = pieces(b.drop_last());
        if b.last() == NEWLINE {
            p.push(Seq::empty())
        } else {
            p.update(p.len() - 1, p.last().push(b.last()))
        }
    }
}

/// A line that was ended by a newline loses a carriage return before it.
pub open spec fn strip_cr(l: Seq<u8>) -> Seq<u8> {
    if l.len() > 0 && l.last() == CARRIAGE_RETURN {
        l.drop_last()
    } else {
        l
    }
}

/// The lines of `b` as bytes: every piece that a newline ends, without its
/// carriage return, then the last piece unless it is empty.
pub open spec fn line_bytes(b: Seq<u8>) -> Seq<Seq<u8>> {
    let p = pieces(b);
    let ended = p.drop_last().map_values(|l: Seq<u8>| strip_cr(l));
    if p.last().len() == 0 {
        ended
    } else {
        ended.push(p.last())
    }
}

/// The records of a file: its lines decoded as UTF-8, or `None` when one of
/// them is not well-formed UTF-8.
pub open spec fn records(b: Seq<u8>) -> Option<Seq<Seq<char>>> {
    let ls = line_bytes(b);
    if forall|j: int| 0 <= j < ls.len() ==> #[trigger] valid_utf8(ls[j]) {
        Some(ls.map_values(|l: Seq<u8>| decode_utf8(l)))
    } else {
        None
    }
}

proof fn lemma_pieces_len(b: Seq<u8>)
    ensures
        pieces(b).len() >= 1,
    decreases b.len(),
{
    if b.len() > 0 {
        lemma_pieces_len(b.drop_last());
    }
}

/// Reading one more byte leaves the pieces that were already ended as they were.
proof fn lemma_pieces_step(b: Seq<u8>, i: int)
    requires
        0 <= i < b.len(),
    ensures
        pieces(b.take(i + 1)) == if b[i] == NEWLINE {
            pieces(b.take(i)).push(Seq::empty())
        } else {
            pieces(b.take(i)).update(
                pieces(b.take(i)).len() - 1,
                pieces(b.take(i)).last().push(b[i]),
            )
        },
{
    assert(b.take(i + 1).drop_last() == b.take(i));
    assert(b.take(i + 1).last() == b[i]);
}

proof fn lemma_pieces_stable(b: Seq<u8>, i: int, k: int)
    requires
        0 <= i <= k <= b.len(),
    ensures
        pieces(b.take(k)).len() >= pieces(b.take(i)).len(),
        forall|j: int|
            0 <= j < pieces(b.take(i)).len() - 1 ==> #[trigger] pieces(b.take(k))[j] == pieces(
                b.take(i),
            )[j],
    decreases k - i,
{
    if i < k {
        lemma_pieces_stable(b, i, k - 1);
        lemma_pieces_step(b, k - 1);
        lemma_pieces_len(b.take(k - 1));
    }
}

/// Splits the bytes of a users file into its lines and decodes each as
/// UTF-8. A newline byte ends a line, and a carriage return just before it
/// is dropped; a last line without a newline counts unless it is empty.
pub fn parse_users(b: &Vec<u8>) -> (r: Result<Vec<String>, ListError>)
    ensures
        r matches Ok(v) ==> records(b@) == Some(v.deep_view()),
        r matches Err(e) ==> records(b@) is None && e == ListError::LineDecode,
        records(b@) is Some ==> r is Ok,
{
    let ghost all = b@;
    let mut out: Vec<String> = Vec::new();
    let mut cur: Vec<u8> = Vec::new();
    let mut i: usize = 0;
    while i < b.len()
        invariant
            0 <= i <= b.len(),
            all == b@,
            pieces(all.take(i as int)).len() == out.len() + 1,
            cur@ == pieces(all.take(i as int)).last(),
            forall|j: int|
                0 <= j < out.len() ==> #[trigger] valid_utf8(
                    strip_cr(pieces(all.take(i as int))[j]),
                ),
            forall|j: int|
                0 <= j < out.len() ==> decode_utf8(strip_cr(pieces(all.take(i as int))[j]))
                    == #[trigger] out[j]@,
        decreases b.len() - i,
    {
        proof {
            lemma_pieces_step(all, i as int);
        }
        let ghost before = pieces(all.take(i as int));
        let ghost done = out@;
        if b[i] == NEWLINE {
            let ghost ended = cur@;
            let n = cur.len();
            if n > 0 && cur[n - 1] == CARRIAGE_RETURN {
                cur.pop();
            }
            assert(cur@ == strip_cr(ended));
            let line = cur;
            cur = Vec::new();
            match text_from_utf8(line) {
                Some(t) => {
                    proof {
                        assert(valid_utf8(strip_cr(ended)));
                        assert(decode_utf8(strip_cr(ended)) == t@);
                    }
                    out.push(t);
                },
                None => {
                    proof {
                        let j = before.len() - 1;
                        lemma_pieces_stable(all, i + 1, all.len() as int);
                        assert(all.take(all.len() as int) == all);
                        assert(pieces(all)[j] == ended);
                        assert(line_bytes(all)[j] == strip_cr(ended));
                    }
                    return Err(ListError::LineDecode);
                },
            }
        } else {
            cur.push(b[i]);
        }
        i = i + 1;
        proof {
            let now = pieces(all.take(i as int));
            assert forall|j: int| 0 <= j < out.len() implies #[trigger] valid_utf8(
                strip_cr(now[j]),
            ) && decode_utf8(strip_cr(now[j])) == out[j]@ by {
                if j < done.len() {
                    assert(now[j] == before[j]);
                    assert(out[j] == done[j]);
                    assert(decode_utf8(strip_cr(before[j])) == done[j]@);
                    assert(valid_utf8(strip_cr(before[j])));
                } else {
                    assert(now[j] == before.last());
                }
            }
        }
    }
    assert(all.take(i as int) == all);
    let ghost p = pieces(all);
    let ghost ended = p.drop_last().map_values(|l: Seq<u8>| strip_cr(l));
    let ghost done = out@;
    assert(ended.len() == done.len());
    if cur.len() > 0 {
        match text_from_utf8(cur) {
            Some(t) => {
                out.push(t);
            },
            None => {
                assert(line_bytes(all)[out.len() as int] == p.last());
                return Err(ListError::LineDecode);
            },
        }
    }
    proof {
        let ls = line_bytes(all);
        assert forall|j: int| 0 <= j < ls.len() implies #[trigger] valid_utf8(ls[j])
            && decode_utf8(ls[j]) == out[j]@ by {
            if j < ended.len() {
                assert(ls[j] == strip_cr(p[j]));
                assert(out[j] == done[j]);
                assert(decode_utf8(strip_cr(p[j])) == done[j]@);
                assert(valid_utf8(strip_cr(p[j])));
            } else {
                assert(ls[j] == p.last());
                assert(decode_utf8(p.last()) == out[j]@);
                assert(valid_utf8(p.last()));
            }
        }
        assert(out.deep_view() == ls.map_values(|l: Seq<u8>| decode_utf8(l)));
    }
    Ok(out)
}

} // verus!
