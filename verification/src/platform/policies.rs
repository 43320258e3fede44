//! A partition of processors reads back from its own text.

use vstd::prelude::*;
use crate::board::text;
use crate::platform::lists;
use crate::platform::lists::MAX_INDICES;
use crate::platform::numa;
use crate::platform::numa::{NumaConfig, MAX_TOTAL_CPUS};

verus! {

// ---------------------------------------------------------------------------
// Joining and splitting
// ---------------------------------------------------------------------------

/// The separator does not occur.
pub open spec fn lacks(s: Seq<u8>, sep: u8) -> bool {
    forall|i: int| 0 <= i < s.len() ==> #[trigger] s[i] != sep
}

proof fn lemma_prefix(s: Seq<u8>, t: Seq<u8>, sep: u8, n: int)
    requires
        0 <= n <= s.len(),
        n <= t.len(),
        forall|i: int| 0 <= i < n ==> s[i] == #[trigger] t[i],
    ensures
        lists::pieces_upto(s, sep, n) == lists::pieces_upto(t, sep, n),
    decreases n,
{
    if n > 0 {
        lemma_prefix(s, t, sep, n - 1);
        assert(s[n - 1] == t[n - 1]);
    }
}

/// Bytes without a separator lengthen the last piece.
proof fn lemma_lengthen(s: Seq<u8>, sep: u8, i: int, n: int)
    requires
        0 <= i <= n <= s.len(),
        forall|k: int| i <= k < n ==> #[trigger] s[k] != sep,
    ensures
        ({
            let p = lists::pieces_upto(s, sep, i);
            lists::pieces_upto(s, sep, n) == p.update(
                p.len() - 1,
                p.last() + s.subrange(i, n),
            )
        }),
    decreases n - i,
{
    let p = lists::pieces_upto(s, sep, i);
    lists::lemma_pieces(s, sep, i);
    if i == n {
        assert(p.last() + s.subrange(i, n) =~= p.last());
        assert(p.update(p.len() - 1, p.last()) =~= p);
    } else {
        lemma_lengthen(s, sep, i, n - 1);
        let q = p.update(p.len() - 1, p.last() + s.subrange(i, n - 1));
        assert((p.last() + s.subrange(i, n - 1)).push(s[n - 1]) =~= p.last() + s.subrange(i, n));
        assert(q.update(q.len() - 1, q.last().push(s[n - 1])) =~= p.update(
            p.len() - 1,
            p.last() + s.subrange(i, n),
        ));
    }
}

/// A text without a separator is one piece.
proof fn lemma_one_piece(w: Seq<u8>, sep: u8)
    requires
        lacks(w, sep),
    ensures
        lists::pieces(w, sep) == seq![w],
{
    lemma_lengthen(w, sep, 0, w.len() as int);
    assert(Seq::<u8>::empty() + w.subrange(0, w.len() as int) =~= w);
    assert(lists::pieces(w, sep) =~= seq![w]);
}

/// A separator and a text without one add one piece.
proof fn lemma_next_piece(s: Seq<u8>, w: Seq<u8>, sep: u8)
    requires
        lacks(w, sep),
    ensures
        lists::pieces(s.push(sep) + w, sep) == lists::pieces(s, sep).push(w),
{
    let t = s.push(sep) + w;
    let n = s.len() as int;
    lemma_prefix(s, t, sep, n);
    assert(t[n] == sep);
    let p = lists::pieces_upto(t, sep, n);
    assert(lists::pieces_upto(t, sep, n + 1) == p.push(Seq::empty()));
    assert forall|k: int| n + 1 <= k < t.len() implies #[trigger] t[k] != sep by {
        assert(t[k] == w[k - n - 1]);
    }
    lemma_lengthen(t, sep, n + 1, t.len() as int);
    assert(t.subrange(n + 1, t.len() as int) =~= w);
    assert(Seq::<u8>::empty() + w =~= w);
    assert(p.push(Seq::empty()).update(p.len() as int, w) =~= p.push(w));
}

// ---------------------------------------------------------------------------
// One node
// ---------------------------------------------------------------------------

/// A written number is digits only, and reads back.
proof fn lemma_number(n: usize)
    ensures
        lists::number(text::ascii(text::decimal(n as nat))) == Some(n as int),
        lacks(text::ascii(text::decimal(n as nat)), 44),
        lacks(text::ascii(text::decimal(n as nat)), 45),
        lacks(text::ascii(text::decimal(n as nat)), 58),
{
    let d = text::ascii(text::decimal(n as nat));
    text::lemma_decimal(n as nat);
    assert(text::is_digit(d[0]));
    assert(lists::unsigned_part(d) == d);
    assert forall|i: int| 0 <= i < d.len() implies 48 <= #[trigger] d[i] <= 57 by {
        assert(text::is_digit(d[i]));
    }
}

/// Within a run the numbers follow each other.
proof fn lemma_run(v: Seq<usize>, j: int, k: int)
    requires
        0 <= numa::run_start(v, j) <= k <= j < v.len(),
    ensures
        v[k] == v[numa::run_start(v, j)] + (k - numa::run_start(v, j)),
        v[j] == v[k] + (j - k),
        numa::run_start(v, j) > 0 ==> numa::run_ends(v, numa::run_start(v, j) - 1),
    decreases j,
{
    if !(j <= 0 || numa::run_ends(v, j - 1)) {
        numa::lemma_run_start(v, j - 1);
        if k < j {
            lemma_run(v, j - 1, k);
        } else {
            lemma_run(v, j - 1, j - 1);
        }
    }
}

proof fn lemma_ascii_join(a: Seq<char>, c: char, b: Seq<char>)
    ensures
        text::ascii(a.push(c) + b) == text::ascii(a).push(c as u8) + text::ascii(b),
        text::ascii(a + seq![c] + b) == text::ascii(a).push(c as u8) + text::ascii(b),
{
    assert(text::ascii(a.push(c) + b) =~= text::ascii(a).push(c as u8) + text::ascii(b));
    assert(text::ascii(a + seq![c] + b) =~= text::ascii(a).push(c as u8) + text::ascii(b));
}

/// A run reads back as its numbers.
proof fn lemma_run_read(v: Seq<usize>, j: int)
    requires
        0 <= j < v.len() <= MAX_INDICES,
    ensures
        ({
            let i = numa::run_start(v, j);
            let t = text::ascii(numa::run_text(v, i, j));
            &&& lists::piece_of(t) == v.subrange(i, j + 1)
            &&& lacks(t, 44)
            &&& lacks(t, 58)
        }),
{
    numa::lemma_run_start(v, j);
    let i = numa::run_start(v, j);
    let t = text::ascii(numa::run_text(v, i, j));
    lemma_number(v[i]);
    lemma_number(v[j]);
    if i == j {
        lemma_one_piece(t, 45);
        assert(lists::piece_of(t) =~= v.subrange(i, j + 1));
    } else {
        let a = text::ascii(text::decimal(v[i] as nat));
        let b = text::ascii(text::decimal(v[j] as nat));
        lemma_ascii_join(text::decimal(v[i] as nat), '-', text::decimal(v[j] as nat));
        assert(t == a.push(45) + b);
        lemma_one_piece(a, 45);
        lemma_next_piece(a, b, 45);
        assert(lists::pieces(t, 45) =~= seq![a, b]);
        lemma_run(v, j, i);
        assert forall|k: int| 0 <= k < j - i + 1 implies lists::range_of(
            v[i] as int,
            v[j] as int,
        )[k] == v[i + k] by {
            lemma_run(v, j, i + k);
        }
        assert(lists::range_of(v[i] as int, v[j] as int) =~= v.subrange(i, j + 1));
        assert forall|k: int| 0 <= k < t.len() implies #[trigger] t[k] != 44 && t[k] != 58 by {
            if k < a.len() {
                assert(t[k] == a[k]);
            } else if k > a.len() {
                assert(t[k] == b[k - a.len() - 1]);
            }
        }
    }
}

/// The runs of a list read back as the list.
proof fn lemma_runs(v: Seq<usize>, n: int)
    requires
        0 <= n <= v.len() <= MAX_INDICES,
        n == 0 || numa::run_ends(v, n - 1),
    ensures
        n > 0 ==> lists::listed(text::ascii(numa::runs_text(v, n))) == v.subrange(0, n),
        lacks(text::ascii(numa::runs_text(v, n)), 58),
    decreases n,
{
    if n > 0 {
        numa::lemma_run_start(v, n - 1);
        let i = numa::run_start(v, n - 1);
        let w = text::ascii(numa::run_text(v, i, n - 1));
        let t = text::ascii(numa::runs_text(v, n));
        lemma_run(v, n - 1, n - 1);
        lemma_run_read(v, n - 1);
        lemma_runs(v, i);
        if i == 0 {
            assert(numa::runs_text(v, 0) =~= Seq::<char>::empty());
            assert(numa::runs_text(v, n) =~= numa::run_text(v, i, n - 1));
            lemma_one_piece(w, 44);
            let p = lists::pieces(w, 44);
            assert(lists::listed_upto(p, 0) =~= Seq::<usize>::empty());
            assert(lists::listed(w) =~= lists::piece_of(w));
        } else {
            let before = text::ascii(numa::runs_text(v, i));
            lemma_ascii_join(numa::runs_text(v, i), ',', numa::run_text(v, i, n - 1));
            assert(t == before.push(44) + w);
            lemma_next_piece(before, w, 44);
            let p = lists::pieces(before, 44);
            lemma_listed_prefix(p, p.push(w), p.len() as int);
            assert(lists::listed(t) =~= lists::listed(before) + lists::piece_of(w));
            assert(v.subrange(0, i) + v.subrange(i, n) =~= v.subrange(0, n));
            assert forall|k: int| 0 <= k < t.len() implies #[trigger] t[k] != 58 by {
                if k < before.len() {
                    assert(t[k] == before[k]);
                } else if k > before.len() {
                    assert(t[k] == w[k - before.len() - 1]);
                }
            }
        }
    }
}

proof fn lemma_listed_prefix(p: Seq<Seq<u8>>, q: Seq<Seq<u8>>, n: int)
    requires
        0 <= n <= p.len(),
        n <= q.len(),
        forall|i: int| 0 <= i < n ==> p[i] == #[trigger] q[i],
    ensures
        lists::listed_upto(p, n) == lists::listed_upto(q, n),
    decreases n,
{
    if n > 0 {
        lemma_listed_prefix(p, q, n - 1);
        assert(p[n - 1] == q[n - 1]);
    }
}

// ---------------------------------------------------------------------------
// All nodes
// ---------------------------------------------------------------------------

/// The texts of the first `n` nodes.
pub open spec fn node_texts(nodes: Seq<Seq<usize>>, n: int) -> Seq<Seq<u8>> {
    Seq::new(
        n as nat,
        |i: int| text::ascii(numa::runs_text(nodes[i], nodes[i].len() as int)),
    )
}

/// No node is empty or larger than a list can be.
pub open spec fn sized(nodes: Seq<Seq<usize>>) -> bool {
    forall|i: int| 0 <= i < nodes.len() ==> 0 < (#[trigger] nodes[i]).len() <= MAX_INDICES
}

proof fn lemma_nodes_split(nodes: Seq<Seq<usize>>, n: int)
    requires
        1 <= n <= nodes.len(),
        sized(nodes),
    ensures
        lists::pieces(text::ascii(numa::nodes_text(nodes, n)), 58) == node_texts(nodes, n),
    decreases n,
{
    let v = nodes[n - 1];
    let w = text::ascii(numa::runs_text(v, v.len() as int));
    lemma_runs(v, v.len() as int);
    if n == 1 {
        assert(numa::nodes_text(nodes, 1) =~= numa::runs_text(v, v.len() as int));
        lemma_one_piece(w, 58);
        assert(node_texts(nodes, 1) =~= seq![w]);
    } else {
        lemma_nodes_split(nodes, n - 1);
        lemma_ascii_join(
            numa::nodes_text(nodes, n - 1),
            ':',
            numa::runs_text(v, v.len() as int),
        );
        lemma_next_piece(text::ascii(numa::nodes_text(nodes, n - 1)), w, 58);
        assert(node_texts(nodes, n) =~= node_texts(nodes, n - 1).push(w));
    }
}

/// Filling the next node with a list that none of the nodes shares.
proof fn lemma_filled(v: Seq<Seq<usize>>, cs: Seq<usize>, k: int)
    requires
        0 <= k <= cs.len(),
        numa::ascending(cs),
        forall|i: int| 0 <= i < cs.len() ==> !numa::assigned(v, #[trigger] cs[i]),
    ensures
        numa::filled(v, v.len() as int, cs, k) == Some(
            if k == 0 {
                v
            } else {
                v.push(cs.subrange(0, k))
            },
        ),
    decreases k,
{
    if k > 0 {
        lemma_filled(v, cs, k - 1);
        let c = cs[k - 1];
        let n = v.len() as int;
        let now = if k == 1 {
            v
        } else {
            v.push(cs.subrange(0, k - 1))
        };
        assert(!numa::assigned(v, c));
        assert(!numa::assigned(now, c)) by {
            if numa::assigned(now, c) {
                let m = choose|m: int| 0 <= m < now.len() && (#[trigger] now[m]).contains(c);
                if m < n {
                    assert(v[m].contains(c));
                } else {
                    let i = choose|i: int| 0 <= i < now[m].len() && now[m][i] == c;
                    assert(cs[i] == c);
                }
            }
        }
        let grown = numa::grown(now, n);
        assert(grown[n] =~= cs.subrange(0, k - 1));
        assert(numa::placed(grown[n], c) =~= cs.subrange(0, k)) by {
            if k > 1 {
                assert(grown[n].last() == cs[k - 2]);
            }
        }
        assert(grown.update(n, cs.subrange(0, k)) =~= v.push(cs.subrange(0, k)));
    }
}

proof fn lemma_policy(nodes: Seq<Seq<usize>>, n: int)
    requires
        0 <= n <= nodes.len(),
        numa::partition(nodes),
        sized(nodes),
        NumaConfig::cpus_upto(nodes, nodes.len() as int) <= MAX_TOTAL_CPUS,
    ensures
        numa::policy_upto(node_texts(nodes, nodes.len() as int), n) == Some(
            (nodes.subrange(0, n), n, NumaConfig::cpus_upto(nodes, n)),
        ),
    decreases n,
{
    let parts = node_texts(nodes, nodes.len() as int);
    if n > 0 {
        lemma_policy(nodes, n - 1);
        let v = nodes.subrange(0, n - 1);
        let l = nodes[n - 1];
        lemma_runs(l, l.len() as int);
        assert(l.subrange(0, l.len() as int) =~= l);
        assert(lists::listed(parts[n - 1]) == l);
        numa::lemma_cpus_grow(nodes, n, nodes.len() as int);
        assert forall|i: int| 0 <= i < l.len() implies !numa::assigned(v, #[trigger] l[i]) by {
            if numa::assigned(v, l[i]) {
                let m = choose|m: int| 0 <= m < v.len() && (#[trigger] v[m]).contains(l[i]);
                assert(nodes[m].contains(l[i]));
                assert(nodes[n - 1].contains(l[i]));
            }
        }
        lemma_filled(v, l, l.len() as int);
        assert(v.push(l) =~= nodes.subrange(0, n));
    } else {
        assert(nodes.subrange(0, 0) =~= Seq::<Seq<usize>>::empty());
    }
}

/// The text of a partition is ASCII.
pub open spec fn ascii_only(s: Seq<char>) -> bool {
    forall|i: int| 0 <= i < s.len() ==> 0 <= #[trigger] s[i] as int <= 127
}

proof fn lemma_runs_ascii(v: Seq<usize>, n: int)
    requires
        0 <= n <= v.len(),
    ensures
        ascii_only(numa::runs_text(v, n)),
    decreases n,
{
    if n > 0 {
        if numa::run_ends(v, n - 1) {
            numa::lemma_run_start(v, n - 1);
            let i = numa::run_start(v, n - 1);
            lemma_runs_ascii(v, i);
            text::lemma_decimal(v[i] as nat);
            text::lemma_decimal(v[n - 1] as nat);
        } else {
            lemma_runs_ascii(v, n - 1);
        }
    }
}

proof fn lemma_nodes_ascii(nodes: Seq<Seq<usize>>, n: int)
    requires
        0 <= n <= nodes.len(),
    ensures
        ascii_only(numa::nodes_text(nodes, n)),
    decreases n,
{
    if n > 0 {
        lemma_nodes_ascii(nodes, n - 1);
        lemma_runs_ascii(nodes[n - 1], nodes[n - 1].len() as int);
    }
}

/// Reading the text of a partition gives the partition back: the nodes of a configuration with
/// no empty node and no more processors than any machine has.
pub proof fn law_policies_read_back(nodes: Seq<Seq<usize>>)
    requires
        nodes.len() > 0,
        numa::partition(nodes),
        forall|i: int| 0 <= i < nodes.len() ==> 0 < (#[trigger] nodes[i]).len(),
        NumaConfig::cpus_upto(nodes, nodes.len() as int) <= MAX_TOTAL_CPUS,
    ensures
        numa::policy_of(
            vstd::utf8::encode_utf8(numa::nodes_text(nodes, nodes.len() as int)),
        ) == Some(nodes),
{
    let n = nodes.len() as int;
    let t = numa::nodes_text(nodes, n);
    assert(sized(nodes)) by {
        assert forall|i: int| 0 <= i < nodes.len() implies 0 < (#[trigger] nodes[i]).len()
            <= MAX_INDICES by {
            numa::lemma_cpus_grow(nodes, i, i);
            numa::lemma_cpus_grow(nodes, i + 1, n);
            assert(NumaConfig::cpus_upto(nodes, i + 1) == NumaConfig::cpus_upto(nodes, i)
                + nodes[i].len());
        }
    }
    lemma_nodes_ascii(nodes, n);
    assert(vstd::utf8::is_ascii_chars(t));
    vstd::utf8::is_ascii_chars_encode_utf8(t);
    assert(vstd::utf8::encode_utf8(t) =~= text::ascii(t));
    lemma_nodes_split(nodes, n);
    lemma_policy(nodes, n);
    assert(nodes.subrange(0, n) =~= nodes);
}

} // verus!
