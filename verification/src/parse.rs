use vstd::prelude::*;

verus! {

/// The ASCII bytes the tokenizer treats as whitespace.
pub open spec fn is_space(b: u8) -> bool {
    b == 32 || b == 9 || b == 10 || b == 11 || b == 12 || b == 13
}

/// ASCII decimal digit.
pub open spec fn is_digit(b: u8) -> bool {
    48 <= b && b <= 57
}

/// Numeric value of a digit string, most significant digit first.
pub open spec fn digits_val(t: Seq<u8>) -> int
    decreases t.len(),
{
    if t.len() == 0 {
        0
    } else {
        digits_val(t.drop_last()) * 10 + (t.last() - 48)
    }
}

pub open spec fn all_digits(t: Seq<u8>) -> bool {
    forall|i: int| 0 <= i < t.len() ==> is_digit(#[trigger] t[i])
}

/// What a token must look like to denote a non-negative integer: an
/// optional leading `+`, then one or more ASCII digits, with a value
/// that fits in `usize`.
pub open spec fn parse_usize_spec(t: Seq<u8>) -> Option<usize> {
    let d = if t.len() > 0 && t[0] == 43 {
        t.skip(1)
    } else {
        t
    };
    if d.len() > 0 && all_digits(d) && digits_val(d) <= usize::MAX {
        Some(digits_val(d) as usize)
    } else {
        None
    }
}

/// Length of the maximal whitespace-free run at the head of `s`.
pub open spec fn token_end(s: Seq<u8>) -> nat
    decreases s.len(),
{
    if s.len() == 0 || is_space(s[0]) {
        0
    } else {
        (1 + token_end(s.skip(1))) as nat
    }
}

pub proof fn lemma_token_end_le(s: Seq<u8>)
    ensures
        token_end(s) <= s.len(),
    decreases s.len(),
{
    if s.len() == 0 || is_space(s[0]) {
    } else {
        lemma_token_end_le(s.skip(1));
    }
}

/// The values of the whitespace-separated tokens of `s` that parse as
/// non-negative integers, in order of appearance.
pub open spec fn ok_vals(s: Seq<u8>) -> Seq<usize>
    decreases s.len(),
    via ok_vals_decreases
{
    if s.len() == 0 {
        seq![]
    } else if is_space(s[0]) {
        ok_vals(s.skip(1))
    } else {
        let e = token_end(s) as int;
        match parse_usize_spec(s.take(e)) {
            Some(v) => seq![v] + ok_vals(s.skip(e)),
            None => ok_vals(s.skip(e)),
        }
    }
}

#[via_fn]
proof fn ok_vals_decreases(s: Seq<u8>) {
    if s.len() > 0 && !is_space(s[0]) {
        lemma_token_end_le(s);
    }
}

/// The raw pair one line contributes: `None` for comment lines and for
/// lines that do not hold exactly two parsing tokens.
pub open spec fn line_pair(line: Seq<u8>) -> Option<(usize, usize)> {
    if line.len() > 0 && line[0] == 35 {
        None
    } else if ok_vals(line).len() == 2 {
        Some((ok_vals(line)[0], ok_vals(line)[1]))
    } else {
        None
    }
}

/// Index of the first line feed in `s`, or `s.len()` when there is none.
pub open spec fn line_end(s: Seq<u8>) -> nat
    decreases s.len(),
{
    if s.len() == 0 || s[0] == 10 {
        0
    } else {
        (1 + line_end(s.skip(1))) as nat
    }
}

pub proof fn lemma_line_end_le(s: Seq<u8>)
    ensures
        line_end(s) <= s.len(),
    decreases s.len(),
{
    if s.len() == 0 || s[0] == 10 {
    } else {
        lemma_line_end_le(s.skip(1));
    }
}

/// Fold one raw pair into the growing edge set: drop self-loops,
/// normalize to (min, max), and collapse duplicates.
pub open spec fn norm_insert(acc: Seq<(usize, usize)>, p: (usize, usize)) -> Seq<(usize, usize)> {
    if p.0 == p.1 {
        acc
    } else {
        let q = if p.0 <= p.1 {
            p
        } else {
            (p.1, p.0)
        };
        if acc.contains(q) {
            acc
        } else {
            acc.push(q)
        }
    }
}

/// The deduplicated edge set after consuming every line of `s`, starting
/// from the edges already in `acc`.  A line ends at a line feed; a
/// carriage return just before the line feed is dropped.
pub open spec fn edges_acc(s: Seq<u8>, acc: Seq<(usize, usize)>) -> Seq<(usize, usize)>
    decreases s.len(),
    via edges_acc_decreases
{
    if s.len() == 0 {
        acc
    } else {
        let e = line_end(s) as int;
        if e < s.len() {
            let ln = if e > 0 && s[e - 1] == 13 {
                s.subrange(0, e - 1)
            } else {
                s.subrange(0, e)
            };
            let acc2 = match line_pair(ln) {
                Some(p) => norm_insert(acc, p),
                None => acc,
            };
            edges_acc(s.skip(e + 1), acc2)
        } else {
            match line_pair(s) {
                Some(p) => norm_insert(acc, p),
                None => acc,
            }
        }
    }
}

#[via_fn]
proof fn edges_acc_decreases(s: Seq<u8>, acc: Seq<(usize, usize)>) {
    if s.len() > 0 {
        lemma_line_end_le(s);
    }
}

/// The deduplicated, normalized edge set that a whole input text denotes.
pub open spec fn edge_set_of(s: Seq<u8>) -> Seq<(usize, usize)> {
    edges_acc(s, seq![])
}

/// A canonical edge set: each pair strictly ordered and no two entries
/// equal.
pub open spec fn normalized_edge_set(s: Seq<(usize, usize)>) -> bool {
    &&& forall|i: int| 0 <= i < s.len() ==> (#[trigger] s[i]).0 < s[i].1
    &&& forall|i: int, j: int| 0 <= i < j < s.len() ==> s[i] != s[j]
}

/// Two pairs name the same unordered edge.
pub open spec fn same_unordered(p: (usize, usize), q: (usize, usize)) -> bool {
    (p.0 == q.0 && p.1 == q.1) || (p.0 == q.1 && p.1 == q.0)
}

proof fn lemma_norm_insert_normalized(acc: Seq<(usize, usize)>, p: (usize, usize))
    requires
        normalized_edge_set(acc),
    ensures
        normalized_edge_set(norm_insert(acc, p)),
{
}

proof fn lemma_edges_acc_normalized(s: Seq<u8>, acc: Seq<(usize, usize)>)
    requires
        normalized_edge_set(acc),
    ensures
        normalized_edge_set(edges_acc(s, acc)),
    decreases s.len(),
{
    if s.len() == 0 {
    } else {
        lemma_line_end_le(s);
        let e = line_end(s) as int;
        if e < s.len() {
            let ln = if e > 0 && s[e - 1] == 13 {
                s.subrange(0, e - 1)
            } else {
                s.subrange(0, e)
            };
            let acc2 = match line_pair(ln) {
                Some(p) => norm_insert(acc, p),
                None => acc,
            };
            lemma_edges_acc_normalized(s.skip(e + 1), acc2);
        }
    }
}

/// Law: for every input text, the deduplicated edge set holds no pair
/// (a, a), and no two of its entries name the same unordered pair.
pub proof fn lemma_edge_set_deduplicated(data: Seq<u8>)
    ensures
        normalized_edge_set(edge_set_of(data)),
        forall|i: int|
            0 <= i < edge_set_of(data).len() ==> (#[trigger] edge_set_of(data)[i]).0
                != edge_set_of(data)[i].1,
        forall|i: int, j: int|
            0 <= i < j < edge_set_of(data).len() ==> !same_unordered(
                edge_set_of(data)[i],
                edge_set_of(data)[j],
            ),
{
    lemma_edges_acc_normalized(data, seq![]);
}

/// Append a raw pair to a canonical edge set, keeping it canonical.
#[verifier::loop_isolation(false)]
fn insert_edge(acc: &mut Vec<(usize, usize)>, a: usize, b: usize)
    requires
        normalized_edge_set(old(acc)@),
    ensures
        final(acc)@ == norm_insert(old(acc)@, (a, b)),
{
    if a == b {
        return ;
    }
    let lo: usize = if a <= b {
        a
    } else {
        b
    };
    let hi: usize = if a <= b {
        b
    } else {
        a
    };
    let mut k: usize = 0;
    while k < acc.len()
        invariant
            k <= acc@.len(),
            forall|m: int| 0 <= m < k ==> #[trigger] acc@[m] != (lo, hi),
            acc@ == old(acc)@,
        decreases acc@.len() - k,
    {
        if acc[k].0 == lo && acc[k].1 == hi {
            assert(acc@.contains((lo, hi)));
            return ;
        }
        k = k + 1;
    }
    assert(!acc@.contains((lo, hi)));
    acc.push((lo, hi));
}

/// EdgeDeduper: scan the input text line by line and build the
/// deduplicated set of normalized undirected edges.
#[verifier::loop_isolation(false)]
pub fn collect_edges(data: &Vec<u8>) -> (r: Vec<(usize, usize)>)
    ensures
        r@ == edge_set_of(data@),
        normalized_edge_set(r@),
{
    let mut acc: Vec<(usize, usize)> = Vec::new();
    let mut i: usize = 0;
    proof {
        assert(data@.skip(0) =~= data@);
    }
    while i < data.len()
        invariant
            i <= data@.len(),
            edge_set_of(data@) == edges_acc(data@.skip(i as int), acc@),
            normalized_edge_set(acc@),
        decreases data@.len() - i,
    {
        let ghost rest = data@.skip(i as int);
        let mut j: usize = i;
        while j < data.len() && data[j] != 10
            invariant
                i <= j <= data@.len(),
                line_end(data@.skip(i as int)) == (j - i) + line_end(data@.skip(j as int)),
            decreases data@.len() - j,
        {
            proof {
                let cur = data@.skip(j as int);
                assert(cur[0] == data@[j as int]);
                assert(cur.skip(1) =~= data@.skip(j + 1));
            }
            j = j + 1;
        }
        proof {
            if j < data@.len() {
                let tail = data@.skip(j as int);
                assert(tail[0] == data@[j as int]);
                assert(line_end(tail) == 0);
            } else {
                assert(data@.skip(j as int).len() == 0);
            }
            assert(line_end(rest) == j - i);
        }
        let ce: usize = if j < data.len() && j > i && data[j - 1] == 13 {
            j - 1
        } else {
            j
        };
        proof {
            let e = line_end(rest) as int;
            if e < rest.len() {
                if e > 0 {
                    assert(rest[e - 1] == data@[j - 1]);
                    assert(rest.subrange(0, e - 1) =~= data@.subrange(i as int, j - 1));
                }
                assert(rest.subrange(0, e) =~= data@.subrange(i as int, j as int));
            } else {
                assert(rest =~= data@.subrange(i as int, j as int));
            }
        }
        let p = parse_line(data, i, ce);
        let ghost acc0 = acc@;
        match p {
            Some(q) => insert_edge(&mut acc, q.0, q.1),
            None => {
            },
        }
        if j < data.len() {
            proof {
                assert(rest.skip(line_end(rest) as int + 1) =~= data@.skip(j + 1));
                assert(edges_acc(rest, acc0) == edges_acc(data@.skip(j + 1), acc@));
            }
            i = j + 1;
        } else {
            proof {
                assert(edges_acc(rest, acc0) == acc@);
                assert(data@.skip(data@.len() as int).len() == 0);
            }
            i = j;
        }
    }
    proof {
        assert(data@.skip(i as int).len() == 0);
    }
    acc
}

fn is_space_b(b: u8) -> (r: bool)
    ensures
        r == is_space(b),
{
    b == 32 || b == 9 || b == 10 || b == 11 || b == 12 || b == 13
}

/// Parse the token held in `s[start..end]` as a non-negative integer.
#[verifier::loop_isolation(false)]
fn parse_token(s: &Vec<u8>, start: usize, end: usize) -> (r: Option<usize>)
    requires
        start <= end <= s@.len(),
    ensures
        r == parse_usize_spec(s@.subrange(start as int, end as int)),
{
    let ghost t = s@.subrange(start as int, end as int);
    let mut i: usize = start;
    if i < end && s[i] == 43 {
        i = i + 1;
        proof {
            assert(t.skip(1) =~= s@.subrange(i as int, end as int));
        }
    }
    let ghost d = s@.subrange(i as int, end as int);
    proof {
        if t.len() > 0 {
            assert(t[0] == s@[start as int]);
        }
        assert(d == (if t.len() > 0 && t[0] == 43 {
            t.skip(1)
        } else {
            t
        }));
    }
    if i == end {
        return None;
    }
    let mut val: usize = 0;
    let mut over: bool = false;
    let mut j: usize = i;
    while j < end
        invariant
            start <= i <= j <= end <= s@.len(),
            d == s@.subrange(i as int, end as int),
            forall|k: int| i <= k < j ==> is_digit(#[trigger] s@[k]),
            !over ==> val == digits_val(s@.subrange(i as int, j as int)),
            over ==> digits_val(s@.subrange(i as int, j as int)) > usize::MAX,
        decreases end - j,
    {
        let b = s[j];
        if b < 48 || b > 57 {
            proof {
                assert(d[j - i] == s@[j as int]);
                assert(!is_digit(d[j - i]));
                assert(!all_digits(d));
            }
            return None;
        }
        let dig: usize = (b - 48) as usize;
        proof {
            assert(s@.subrange(i as int, j + 1).drop_last() =~= s@.subrange(
                i as int,
                j as int,
            ));
            assert(s@.subrange(i as int, j + 1).last() == s@[j as int]);
        }
        if over {
            proof {
                let prev = digits_val(s@.subrange(i as int, j as int));
                assert(digits_val(s@.subrange(i as int, j + 1)) == prev * 10 + (b - 48));
                assert(prev * 10 >= prev) by (nonlinear_arith)
                    requires
                        prev > 0,
                ;
            }
        } else {
            if val <= (usize::MAX - dig) / 10 {
                proof {
                    assert(10 * val <= usize::MAX - dig) by (nonlinear_arith)
                        requires
                            val <= (usize::MAX - dig) / 10,
                            0 <= dig,
                    ;
                }
                val = val * 10 + dig;
            } else {
                over = true;
                proof {
                    assert(val * 10 + dig > usize::MAX) by (nonlinear_arith)
                        requires
                            val > (usize::MAX - dig) / 10,
                            0 <= dig <= 9,
                    ;
                }
            }
        }
        j = j + 1;
    }
    proof {
        assert(s@.subrange(i as int, end as int) =~= d);
        assert(all_digits(d));
    }
    if over {
        None
    } else {
        Some(val)
    }
}

/// Scan `s[start..end]` for the raw pair the line contributes, if any.
#[verifier::loop_isolation(false)]
fn parse_line(s: &Vec<u8>, start: usize, end: usize) -> (r: Option<(usize, usize)>)
    requires
        start <= end <= s@.len(),
    ensures
        r == line_pair(s@.subrange(start as int, end as int)),
{
    let ghost ln = s@.subrange(start as int, end as int);
    if start < end && s[start] == 35 {
        return None;
    }
    let mut i: usize = start;
    let mut n_ok: usize = 0;
    let mut v0: usize = 0;
    let mut v1: usize = 0;
    let ghost mut found: Seq<usize> = seq![];
    while i < end
        invariant
            start <= i <= end <= s@.len(),
            ln == s@.subrange(start as int, end as int),
            ok_vals(ln) == found + ok_vals(s@.subrange(i as int, end as int)),
            n_ok == found.len() || (n_ok == 3 && found.len() >= 3),
            n_ok <= 3,
            n_ok >= 1 ==> v0 == found[0],
            n_ok >= 2 ==> v1 == found[1],
        decreases end - i,
    {
        let b = s[i];
        if is_space_b(b) {
            proof {
                let cur = s@.subrange(i as int, end as int);
                assert(cur[0] == s@[i as int]);
                assert(cur.skip(1) =~= s@.subrange(i + 1, end as int));
            }
            i = i + 1;
        } else {
            let mut j: usize = i + 1;
            proof {
                let cur = s@.subrange(i as int, end as int);
                assert(cur[0] == s@[i as int]);
                assert(!is_space(cur[0]));
                assert(cur.skip(1) =~= s@.subrange(i + 1, end as int));
                assert(token_end(cur) == 1 + token_end(s@.subrange(i + 1, end as int)));
            }
            while j < end && !is_space_b(s[j])
                invariant
                    i < j <= end <= s@.len(),
                    token_end(s@.subrange(i as int, end as int)) == (j - i) + token_end(
                        s@.subrange(j as int, end as int),
                    ),
                decreases end - j,
            {
                proof {
                    let cur = s@.subrange(j as int, end as int);
                    assert(cur[0] == s@[j as int]);
                    assert(!is_space(cur[0]));
                    assert(cur.skip(1) =~= s@.subrange(j + 1, end as int));
                    assert(token_end(cur) == 1 + token_end(s@.subrange(j + 1, end as int)));
                }
                j = j + 1;
            }
            proof {
                let cur = s@.subrange(i as int, end as int);
                if j < end {
                    let tail = s@.subrange(j as int, end as int);
                    assert(tail[0] == s@[j as int]);
                    assert(is_space(tail[0]));
                    assert(token_end(tail) == 0);
                } else {
                    assert(s@.subrange(j as int, end as int).len() == 0);
                }
                assert(token_end(cur) == j - i);
                assert(cur.take(j - i) =~= s@.subrange(i as int, j as int));
                assert(cur.skip(j - i) =~= s@.subrange(j as int, end as int));
            }
            let tok = parse_token(s, i, j);
            match tok {
                Some(v) => {
                    proof {
                        found = found.push(v);
                        assert(ok_vals(ln) == found + ok_vals(s@.subrange(j as int, end as int)));
                    }
                    if n_ok == 0 {
                        v0 = v;
                        n_ok = 1;
                    } else if n_ok == 1 {
                        v1 = v;
                        n_ok = 2;
                    } else {
                        n_ok = 3;
                    }
                },
                None => {
                },
            }
            i = j;
        }
    }
    proof {
        assert(s@.subrange(i as int, end as int).len() == 0);
        assert(ok_vals(s@.subrange(i as int, end as int)) =~= Seq::<usize>::empty());
        assert(ok_vals(ln) =~= found);
        if start < end {
            assert(ln[0] == s@[start as int]);
        }
    }
    if n_ok == 2 {
        Some((v0, v1))
    } else {
        None
    }
}

} // verus!
