use vstd::prelude::*;
use vstd::string::StrSliceExecFns;
use vstd::string::StringExecFns;

use crate::chunk::texts;


verus! {

/// What the orchestrator reads from its configuration.
#[derive(Debug, PartialEq, Eq)]
pub struct ClientSettings {
    pub node_addresses: Vec<String>,
    pub encoder_params: Vec<String>,
}

/// What a worker reads from its configuration.
#[derive(Debug, PartialEq, Eq)]
pub struct NodeSettings {
    pub address: String,
}

/// Unicode white space, as `char::is_whitespace` tells it.
pub open spec fn is_ws(c: char) -> bool {
    let u = c as u32;
    ||| 9 <= u <= 13
    ||| u == 32
    ||| u == 0x85
    ||| u == 0xa0
    ||| u == 0x1680
    ||| 0x2000 <= u <= 0x200a
    ||| u == 0x2028
    ||| u == 0x2029
    ||| u == 0x202f
    ||| u == 0x205f
    ||| u == 0x3000
}

/// The pieces of `s` between single spaces, empty pieces included, as
/// `str::split(' ')` gives them.
pub open spec fn split_spaces(s: Seq<char>) -> Seq<Seq<char>>
    decreases s.len(),
{
    if s.len() == 0 {
        seq![Seq::empty()]
    } else {
        let r = split_spaces(s.drop_last());
        if s.last() == ' ' {
            r.push(Seq::empty())
        } else {
            r.update(r.len() - 1, r.last().push(s.last()))
        }
    }
}

/// The first position at or after `i` that is not white space.
pub open spec fn lead(p: Seq<char>, i: int) -> int
    decreases p.len() - i,
{
    if 0 <= i < p.len() && is_ws(p[i]) {
        lead(p, i + 1)
    } else {
        i
    }
}

/// The end of `p` before `j` once trailing white space down to `lo` is cut.
pub open spec fn trail(p: Seq<char>, j: int, lo: int) -> int
    decreases j - lo,
{
    if j > lo && is_ws(p[j - 1]) {
        trail(p, j - 1, lo)
    } else {
        j
    }
}

/// `p` without leading and trailing white space.
pub open spec fn trimmed(p: Seq<char>) -> Seq<char> {
    let a = lead(p, 0);
    p.subrange(a, trail(p, p.len() as int, a))
}

/// The non-empty trimmed pieces of `s` between spaces.
pub open spec fn tokens(s: Seq<char>) -> Seq<Seq<char>> {
    split_spaces(s).map_values(|p: Seq<char>| trimmed(p)).filter(|t: Seq<char>| t.len() > 0)
}

/// The tokens of every string of `raw`, in order.
pub open spec fn all_tokens(raw: Seq<Seq<char>>) -> Seq<Seq<char>>
    decreases raw.len(),
{
    if raw.len() == 0 {
        Seq::empty()
    } else {
        all_tokens(raw.drop_last()) + tokens(raw.last())
    }
}

proof fn lemma_kept_push(x: Seq<Seq<char>>, a: Seq<char>)
    ensures
        x.push(a).map_values(|p: Seq<char>| trimmed(p)).filter(|t: Seq<char>| t.len() > 0) == if trimmed(a).len() > 0 {
            x.map_values(|p: Seq<char>| trimmed(p)).filter(|t: Seq<char>| t.len() > 0).push(trimmed(a))
        } else {
            x.map_values(|p: Seq<char>| trimmed(p)).filter(|t: Seq<char>| t.len() > 0)
        },
{
    let m = x.push(a).map_values(|p: Seq<char>| trimmed(p));
    assert(m.drop_last() =~= x.map_values(|p: Seq<char>| trimmed(p)));
    reveal(Seq::filter);
}

fn is_ws_char(c: char) -> (r: bool)
    ensures
        r == is_ws(c),
{
    let u = c as u32;
    (9 <= u && u <= 13) || u == 32 || u == 0x85 || u == 0xa0 || u == 0x1680 || (0x2000 <= u && u
        <= 0x200a) || u == 0x2028 || u == 0x2029 || u == 0x202f || u == 0x205f || u == 0x3000
}

/// The characters `from .. to` of `s` without surrounding white space.
fn trim_piece(s: &str, from: usize, to: usize) -> (r: String)
    requires
        from <= to <= s@.len(),
    ensures
        r@ == trimmed(s@.subrange(from as int, to as int)),
{
    let p = s.substring_char(from, to);
    let n = p.unicode_len();
    let mut a: usize = 0;
    let mut done = false;
    while !done
        invariant
            n == p@.len(),
            a <= n,
            lead(p@, a as int) == lead(p@, 0),
            done ==> lead(p@, a as int) == a,
        decreases n - a + if done {
            0int
        } else {
            1int
        },
    {
        if a < n && is_ws_char(p.get_char(a)) {
            a = a + 1;
        } else {
            done = true;
        }
    }
    let mut b: usize = n;
    done = false;
    while !done
        invariant
            n == p@.len(),
            a <= b <= n,
            lead(p@, 0) == a,
            trail(p@, b as int, a as int) == trail(p@, n as int, a as int),
            done ==> trail(p@, b as int, a as int) == b,
        decreases b + if done {
            0int
        } else {
            1int
        },
    {
        if b > a && is_ws_char(p.get_char(b - 1)) {
            b = b - 1;
        } else {
            done = true;
        }
    }
    String::from_str(p.substring_char(a, b))
}

/// Appends to `out` the tokens of `s`.
fn push_tokens(out: &mut Vec<String>, s: &str)
    ensures
        texts(final(out)@) == texts(old(out)@) + tokens(s@),
{
    let n = s.unicode_len();
    let mut start: usize = 0;
    let mut i: usize = 0;
    let ghost closed: Seq<Seq<char>> = Seq::empty();
    let ghost base = texts(out@);
    proof {
        assert(s@.subrange(0, 0) =~= Seq::<char>::empty());
        assert(split_spaces(Seq::<char>::empty()) == seq![Seq::<char>::empty()]);
        assert(closed.push(s@.subrange(0, 0)) =~= seq![Seq::<char>::empty()]);
        assert(closed.map_values(|p: Seq<char>| trimmed(p)).filter(|t: Seq<char>| t.len() > 0) =~= Seq::<Seq<char>>::empty()) by {
            reveal(Seq::filter);
        }
        assert(base + Seq::<Seq<char>>::empty() =~= base);
    }
    while i < n
        invariant
            n == s@.len(),
            start <= i <= n,
            split_spaces(s@.subrange(0, i as int)) == closed.push(s@.subrange(start as int, i as int)),
            texts(out@) == base + closed.map_values(|p: Seq<char>| trimmed(p)).filter(
                |t: Seq<char>| t.len() > 0,
            ),
        decreases n - i,
    {
        let c = s.get_char(i);
        proof {
            let t = s@.subrange(0, i + 1);
            assert(t.drop_last() =~= s@.subrange(0, i as int));
            assert(t.last() == c);
        }
        if c == ' ' {
            let piece = trim_piece(s, start, i);
            let ghost before = out@;
            if piece.as_str().unicode_len() > 0 {
                out.push(piece);
                proof {
                    assert(texts(out@) =~= texts(before).push(piece@));
                }
            }
            proof {
                lemma_kept_push(closed, s@.subrange(start as int, i as int));
                closed = closed.push(s@.subrange(start as int, i as int));
                assert(s@.subrange(i + 1, i + 1) =~= Seq::<char>::empty());
            }
            start = i + 1;
        } else {
            proof {
                let q = s@.subrange(start as int, i as int);
                assert(q.push(c) =~= s@.subrange(start as int, i + 1));
                assert(closed.push(q).update(closed.len() as int, q.push(c)) =~= closed.push(q.push(c)));
            }
        }
        i = i + 1;
    }
    let piece = trim_piece(s, start, n);
    let ghost before = out@;
    if piece.as_str().unicode_len() > 0 {
        out.push(piece);
        proof {
            assert(texts(out@) =~= texts(before).push(piece@));
        }
    }
    proof {
        lemma_kept_push(closed, s@.subrange(start as int, n as int));
        assert(s@.subrange(0, n as int) =~= s@);
        let kept = closed.map_values(|p: Seq<char>| trimmed(p)).filter(|t: Seq<char>| t.len() > 0);
        assert(split_spaces(s@) == closed.push(s@.subrange(start as int, n as int)));
        if piece@.len() > 0 {
            assert(tokens(s@) == kept.push(piece@));
            assert(base + kept.push(piece@) =~= (base + kept).push(piece@));
        } else {
            assert(tokens(s@) == kept);
        }
    }
}

/// Encoder parameters given as free text: every string is cut at spaces,
/// each piece trimmed, empty pieces dropped, and `-y` appended so that the
/// encoder overwrites its output.
pub fn split_encoder_params(raw: &Vec<String>) -> (r: Vec<String>)
    ensures
        texts(r@) == all_tokens(texts(raw@)) + seq!["-y"@],
{
    let mut r: Vec<String> = Vec::new();
    let mut i: usize = 0;
    while i < raw.len()
        invariant
            i <= raw@.len(),
            texts(r@) == all_tokens(texts(raw@.subrange(0, i as int))),
        decreases raw@.len() - i,
    {
        push_tokens(&mut r, raw[i].as_str());
        proof {
            let t = texts(raw@.subrange(0, i + 1));
            assert(t.drop_last() =~= texts(raw@.subrange(0, i as int)));
            assert(t.last() == raw@[i as int]@);
        }
        i = i + 1;
    }
    let ghost before = r@;
    r.push(String::from_str("-y"));
    proof {
        assert(raw@.subrange(0, i as int) =~= raw@);
        assert(texts(r@) =~= texts(before).push("-y"@));
    }
    r
}

impl ClientSettings {
    /// Encoder parameters given on the command line replace the configured
    /// ones, split into tokens with `-y` appended; without them the
    /// configured ones stay.
    pub fn override_encoder_params(&mut self, raw: Option<Vec<String>>)
        ensures
            final(self).node_addresses@ == old(self).node_addresses@,
            texts(final(self).encoder_params@) == match raw {
                Some(v) => all_tokens(texts(v@)) + seq!["-y"@],
                None => texts(old(self).encoder_params@),
            },
    {
        match raw {
            Some(v) => {
                self.encoder_params = split_encoder_params(&v);
            },
            None => {},
        }
    }

    /// Node addresses given on the command line replace the configured
    /// ones; an empty list leaves them.
    pub fn override_nodes(&mut self, nodes: Vec<String>)
        ensures
            nodes@.len() > 0 ==> final(self).node_addresses@ == nodes@,
            nodes@.len() == 0 ==> final(self).node_addresses@ == old(self).node_addresses@,
            final(self).encoder_params@ == old(self).encoder_params@,
    {
        if nodes.len() > 0 {
            self.node_addresses = nodes;
        }
    }
}

impl NodeSettings {
    /// An address given on the command line replaces the configured one.
    pub fn override_address(&mut self, address: Option<String>)
        ensures
            final(self).address@ == match address {
                Some(a) => a@,
                None => old(self).address@,
            },
    {
        match address {
            Some(a) => {
                self.address = a;
            },
            None => {},
        }
    }
}

} // verus!
