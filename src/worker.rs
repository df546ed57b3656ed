use vstd::prelude::*;
use vstd::string::*;
use crate::text::{cat, char_is_whitespace, char_is_alphabetic, usize_to_string, decimal, is_ws, alphabetic};

verus! {

/// The characters that make up a token: non-whitespace, or alphabetic for words.
pub open spec fn in_token(c: char, words: bool) -> bool {
    if words { alphabetic(c) } else { !is_ws(c) }
}

/// The first position at or after `i` whose character is (or is not, by `inside`) in a token.
pub open spec fn skip(s: Seq<char>, i: int, words: bool, inside: bool) -> int
    decreases s.len() - i,
{
    if i < 0 || i >= s.len() {
        if i < 0 { 0 } else { s.len() as int }
    } else if in_token(s[i], words) == inside {
        skip(s, i + 1, words, inside)
    } else {
        i
    }
}

/// The maximal runs of token characters in `s` from position `i` on.
pub open spec fn tokens_from(s: Seq<char>, i: int, words: bool) -> Seq<Seq<char>>
    decreases s.len() - i,
{
    if i < 0 || i >= s.len() {
        Seq::empty()
    } else {
        let a = skip(s, i, words, false);
        let b = skip(s, a, words, true);
        if a >= s.len() || b <= i || b > s.len() {
            Seq::empty()
        } else {
            seq![s.subrange(a, b)] + tokens_from(s, b, words)
        }
    }
}

/// The maximal runs of token characters in `s`.
pub open spec fn tokens(s: Seq<char>, words: bool) -> Seq<Seq<char>> {
    tokens_from(s, 0, words)
}

proof fn lemma_skip_bounds(s: Seq<char>, i: int, words: bool, inside: bool)
    requires
        0 <= i <= s.len(),
    ensures
        i <= skip(s, i, words, inside) <= s.len(),
        skip(s, i, words, inside) < s.len() ==> in_token(s[skip(s, i, words, inside)], words) != inside,
    decreases s.len() - i,
{
    if i < s.len() && in_token(s[i], words) == inside {
        lemma_skip_bounds(s, i + 1, words, inside);
    }
}

fn is_token_char(c: char, words: bool) -> (r: bool)
    ensures
        r == in_token(c, words),
{
    if words { char_is_alphabetic(c) } else { !char_is_whitespace(c) }
}

/// The first position at or after `i` whose character is (or is not) in a token.
fn skip_exec(s: &str, n: usize, i: usize, words: bool, inside: bool) -> (r: usize)
    requires
        n == s@.len(),
        i <= n,
    ensures
        r as int == skip(s@, i as int, words, inside),
{
    let mut j: usize = i;
    while j < n
        invariant
            i <= j <= n,
            n == s@.len(),
            skip(s@, j as int, words, inside) == skip(s@, i as int, words, inside),
        decreases n - j,
    {
        let c = s.get_char(j);
        if is_token_char(c, words) != inside {
            return j;
        }
        j = j + 1;
    }
    j
}

/// The maximal runs of token characters: whitespace-separated tokens, or alphabetic words.
pub fn split_tokens(s: &str, words: bool) -> (r: Vec<String>)
    ensures
        r@.map_values(|t: String| t@) == tokens(s@, words),
{
    let n = s.unicode_len();
    let mut r: Vec<String> = Vec::new();
    let mut i: usize = 0;
    while i < n
        invariant
            i <= n,
            n == s@.len(),
            r@.map_values(|t: String| t@) + tokens_from(s@, i as int, words) == tokens(s@, words),
        decreases n - i,
    {
        let a = skip_exec(s, n, i, words, false);
        proof { lemma_skip_bounds(s@, i as int, words, false); }
        if a >= n {
            proof {
                assert(tokens_from(s@, i as int, words) =~= Seq::<Seq<char>>::empty());
                assert(tokens_from(s@, n as int, words) =~= Seq::<Seq<char>>::empty());
            }
            i = n;
        } else {
            let b = skip_exec(s, n, a, words, true);
            proof { lemma_skip_bounds(s@, a as int, words, true); }
            let t = String::from_str(s.substring_char(a, b));
            let ghost before = r@.map_values(|t: String| t@);
            r.push(t);
            proof {
                assert(r@.map_values(|t: String| t@) =~= before.push(s@.subrange(a as int, b as int)));
                assert(tokens_from(s@, i as int, words) == seq![s@.subrange(a as int, b as int)] + tokens_from(s@, b as int, words));
                assert(before + tokens_from(s@, i as int, words) =~= before.push(s@.subrange(a as int, b as int)) + tokens_from(s@, b as int, words));
            }
            i = b;
        }
    }
    proof {
        assert(tokens_from(s@, i as int, words) =~= Seq::<Seq<char>>::empty());
        assert(r@.map_values(|t: String| t@) + Seq::<Seq<char>>::empty() =~= r@.map_values(|t: String| t@));
    }
    r
}

/// One record of an intermediate or output file: `{key} {value}\n`.
pub open spec fn record(k: Seq<char>, v: Seq<char>) -> Seq<char> {
    k + seq![' '] + v + seq!['\n']
}

/// The record of one line: its first two whitespace-separated tokens, if it has two.
pub open spec fn parsed_line(s: Seq<char>) -> Option<(Seq<char>, Seq<char>)> {
    let t = tokens(s, false);
    if t.len() >= 2 { Some((t[0], t[1])) } else { None }
}

/// Reads one line of an intermediate file: its key and value are the first two
/// whitespace-separated tokens; a line with fewer tokens carries no record.
pub fn parse_line(line: &str) -> (r: Option<(String, String)>)
    ensures
        match r {
            Some(p) => parsed_line(line@) == Some((p.0@, p.1@)),
            None => parsed_line(line@) is None,
        },
{
    let mut t = split_tokens(line, false);
    proof {
        assert(t@.len() == tokens(line@, false).len());
    }
    if t.len() < 2 {
        return None;
    }
    let ghost tv = t@;
    t.truncate(2);
    let v = t.pop().unwrap();
    let k = t.pop().unwrap();
    proof {
        assert(tokens(line@, false)[0] == tv[0]@);
        assert(tokens(line@, false)[1] == tv[1]@);
    }
    Some((k, v))
}

/// The first position at or after `i` that holds a line break, or the length.
pub open spec fn next_break(s: Seq<char>, i: int) -> int
    decreases s.len() - i,
{
    if i < 0 {
        0
    } else if i >= s.len() {
        s.len() as int
    } else if s[i] == '\n' {
        i
    } else {
        next_break(s, i + 1)
    }
}

/// The records of the lines of `s` from position `i` on, lines without one skipped.
pub open spec fn records_from(s: Seq<char>, i: int) -> Seq<(Seq<char>, Seq<char>)>
    decreases s.len() - i,
{
    if i < 0 || i >= s.len() {
        Seq::empty()
    } else {
        let e = next_break(s, i);
        let rest = if e < i || e >= s.len() { Seq::empty() } else { records_from(s, e + 1) };
        match parsed_line(s.subrange(i, e)) {
            Some(p) => seq![p] + rest,
            None => rest,
        }
    }
}

proof fn lemma_next_break(s: Seq<char>, i: int)
    requires
        0 <= i <= s.len(),
    ensures
        i <= next_break(s, i) <= s.len(),
    decreases s.len() - i,
{
    if i < s.len() && s[i] != '\n' {
        lemma_next_break(s, i + 1);
    }
}

/// Reads the records of an intermediate file, line by line; a line with fewer than
/// two tokens carries none.
pub fn parse_records(content: &str) -> (r: Vec<(String, String)>)
    ensures
        pairs_view(r@) == records_from(content@, 0),
{
    let n = content.unicode_len();
    let mut r: Vec<(String, String)> = Vec::new();
    let mut i: usize = 0;
    while i < n
        invariant
            i <= n,
            n == content@.len(),
            pairs_view(r@) + records_from(content@, i as int) == records_from(content@, 0),
        decreases n - i,
    {
        let mut e: usize = i;
        while e < n
            invariant
                i <= e <= n,
                n == content@.len(),
                next_break(content@, e as int) == next_break(content@, i as int),
            ensures
                i <= e <= n,
                next_break(content@, e as int) == next_break(content@, i as int),
                e == n || content@[e as int] == '\n',
            decreases n - e,
        {
            if content.get_char(e) == '\n' {
                break;
            }
            e = e + 1;
        }
        proof {
            lemma_next_break(content@, i as int);
        }
        assert(e as int == next_break(content@, i as int));
        let line = content.substring_char(i, e);
        let parsed = parse_line(line);
        let ghost before = pairs_view(r@);
        let ghost rest = if e >= n { Seq::<(Seq<char>, Seq<char>)>::empty() } else { records_from(content@, e + 1) };
        match parsed {
            Some(p) => {
                r.push(p);
                proof {
                    assert(pairs_view(r@) =~= before.push((p.0@, p.1@)));
                    assert(before + (seq![(p.0@, p.1@)] + rest) =~= pairs_view(r@) + rest);
                }
            },
            None => {},
        }
        if e >= n {
            proof {
                assert(pairs_view(r@) + Seq::<(Seq<char>, Seq<char>)>::empty() =~= pairs_view(r@));
                assert(records_from(content@, n as int) =~= Seq::<(Seq<char>, Seq<char>)>::empty());
            }
            i = n;
        } else {
            i = e + 1;
        }
    }
    proof {
        assert(records_from(content@, i as int) =~= Seq::<(Seq<char>, Seq<char>)>::empty());
        assert(pairs_view(r@) + Seq::<(Seq<char>, Seq<char>)>::empty() =~= pairs_view(r@));
    }
    r
}

/// The path of shard `index` of a map task: `{out_dir}/mr-{task_id}_{work_id}-{index}`.
pub open spec fn shard_path(out_dir: Seq<char>, task_id: Seq<char>, work_id: Seq<char>, index: nat) -> Seq<char> {
    out_dir + seq!['/', 'm', 'r', '-'] + task_id + seq!['_'] + work_id + seq!['-'] + decimal(index)
}

/// The path of shard `index` of a map task.
pub fn intermediate_file_name(out_dir: &str, task_id: &str, work_id: &str, index: usize) -> (r: String)
    ensures
        r@ == shard_path(out_dir@, task_id@, work_id@, index as nat),
{
    proof {
        reveal_strlit("/mr-");
        reveal_strlit("_");
        reveal_strlit("-");
    }
    let a = cat(out_dir, "/mr-");
    let b = cat(a.as_str(), task_id);
    let c = cat(b.as_str(), "_");
    let d = cat(c.as_str(), work_id);
    let e = cat(d.as_str(), "-");
    let idx = usize_to_string(index);
    let r = cat(e.as_str(), idx.as_str());
    assert(r@ =~= shard_path(out_dir@, task_id@, work_id@, index as nat));
    r
}

/// The names `mr-{task_id}_{work_id}-{i}` of the first `num` shards, relative to the output directory.
pub fn out_file_name(task_id: &String, work_id: &String, num: i32) -> (r: Vec<String>)
    ensures
        r@.len() == if num < 0 { 0 } else { num as int },
        forall|i: int| 0 <= i < r@.len() ==> (#[trigger] r@[i])@ == shard_path(seq![], task_id@, work_id@, i as nat).subrange(1, shard_path(seq![], task_id@, work_id@, i as nat).len() as int),
{
    let mut r: Vec<String> = Vec::new();
    if num <= 0 {
        return r;
    }
    let n = num as usize;
    let mut i: usize = 0;
    while i < n
        invariant
            i <= n,
            n == num as int,
            r@.len() == i,
            forall|k: int| 0 <= k < i ==> (#[trigger] r@[k])@ == shard_path(seq![], task_id@, work_id@, k as nat).subrange(1, shard_path(seq![], task_id@, work_id@, k as nat).len() as int),
        decreases n - i,
    {
        let full = intermediate_file_name("", task_id.as_str(), work_id.as_str(), i);
        proof { reveal_strlit(""); }
        let name = String::from_str(full.as_str().substring_char(1, full.unicode_len()));
        r.push(name);
        i = i + 1;
    }
    r
}

/// Writing a record and reading its line back yields the same key and value, when
/// both are non-empty and hold no whitespace.
pub proof fn law_record_round_trip(k: Seq<char>, v: Seq<char>)
    requires
        k.len() > 0,
        v.len() > 0,
        forall|i: int| 0 <= i < k.len() ==> !is_ws(#[trigger] k[i]),
        forall|i: int| 0 <= i < v.len() ==> !is_ws(#[trigger] v[i]),
    ensures
        parsed_line(record(k, v)) == Some((k, v)),
{
    let s = record(k, v);
    let kl = k.len() as int;
    let vl = v.len() as int;
    assert(s.len() == kl + vl + 2);
    assert forall|i: int| 0 <= i < kl implies s[i] == k[i] by {}
    assert forall|i: int| 0 <= i < vl implies s[kl + 1 + i] == v[i] by {}
    assert(s[kl] == ' ');
    assert(s[kl + vl + 1] == '\n');
    assert(skip(s, 0, false, false) == 0);
    lemma_skip_run(s, 0, kl, false, true);
    assert(skip(s, kl, false, true) == kl);
    lemma_skip_run(s, kl, kl + 1, false, false);
    lemma_skip_run(s, kl + 1, kl + 1 + vl, false, true);
    assert(s.subrange(0, kl) =~= k);
    assert(s.subrange(kl + 1, kl + 1 + vl) =~= v);
    let t = tokens(s, false);
    assert(t[0] == k);
    let rest = tokens_from(s, kl, false);
    assert(t == seq![k] + rest);
    assert(rest == seq![v] + tokens_from(s, kl + 1 + vl, false));
    assert(t[1] == v);
}

/// Skipping over a run `[i, j)` of characters that all are (or all are not) token
/// characters lands on `j` when `s[j]` differs.
proof fn lemma_skip_run(s: Seq<char>, i: int, j: int, words: bool, inside: bool)
    requires
        0 <= i <= j < s.len(),
        forall|x: int| i <= x < j ==> in_token(#[trigger] s[x], words) == inside,
        in_token(s[j], words) != inside,
    ensures
        skip(s, i, words, inside) == j,
    decreases j - i,
{
    if i < j {
        lemma_skip_run(s, i + 1, j, words, inside);
    }
}

/// The contents of a file holding the records of `pairs`, in order.
pub open spec fn records(pairs: Seq<(Seq<char>, Seq<char>)>) -> Seq<char>
    decreases pairs.len(),
{
    if pairs.len() == 0 {
        Seq::empty()
    } else {
        records(pairs.drop_last()) + record(pairs.last().0, pairs.last().1)
    }
}

/// Pairs of strings seen as pairs of character sequences.
pub open spec fn pairs_view(v: Seq<(String, String)>) -> Seq<(Seq<char>, Seq<char>)> {
    v.map_values(|p: (String, String)| (p.0@, p.1@))
}

/// How many consecutive pairs go to one shard: `ceil(total / n)`.
pub open spec fn shard_len(total: nat, n: nat) -> nat {
    if n == 0 { total } else { ((total + n - 1) as int / n as int) as nat }
}

/// The shard contents of `pairs` cut into consecutive runs of `c` records.
pub open spec fn shard_contents(pairs: Seq<(Seq<char>, Seq<char>)>, c: nat) -> Seq<Seq<char>>
    decreases pairs.len(),
{
    if pairs.len() == 0 || c == 0 {
        Seq::empty()
    } else if pairs.len() <= c {
        seq![records(pairs)]
    } else {
        seq![records(pairs.take(c as int))] + shard_contents(pairs.skip(c as int), c)
    }
}

/// The records of `pairs[from..to]` as one string.
pub fn records_of(pairs: &Vec<(String, String)>, from: usize, to: usize) -> (r: String)
    requires
        from <= to <= pairs@.len(),
    ensures
        r@ == records(pairs_view(pairs@).subrange(from as int, to as int)),
{
    proof {
        reveal_strlit(" ");
        reveal_strlit("\n");
    }
    let mut r = String::new();
    let mut p: usize = from;
    proof {
        assert(pairs_view(pairs@).subrange(from as int, from as int) =~= Seq::<(Seq<char>, Seq<char>)>::empty());
    }
    while p < to
        invariant
            from <= p <= to,
            to <= pairs@.len(),
            r@ == records(pairs_view(pairs@).subrange(from as int, p as int)),
        decreases to - p,
    {
        let a = cat(r.as_str(), pairs[p].0.as_str());
        let b = cat(a.as_str(), " ");
        let c = cat(b.as_str(), pairs[p].1.as_str());
        r = cat(c.as_str(), "\n");
        proof {
            let sub = pairs_view(pairs@).subrange(from as int, p + 1);
            assert(sub.drop_last() =~= pairs_view(pairs@).subrange(from as int, p as int));
            assert(sub.last() == (pairs@[p as int].0@, pairs@[p as int].1@));
            reveal_strlit(" ");
            reveal_strlit("\n");
            assert(" "@ =~= seq![' ']);
            assert("\n"@ =~= seq!['\n']);
            assert(r@ =~= records(sub.drop_last()) + record(sub.last().0, sub.last().1));
        }
        p = p + 1;
    }
    r
}

/// Cuts the records of `pairs` into at most `n` shards of `ceil(|pairs| / n)` consecutive
/// records each (the last may hold fewer) and returns each shard's file contents.
/// No pairs give no shards.
pub fn map_shards(pairs: &Vec<(String, String)>, n: usize) -> (r: Vec<String>)
    requires
        n >= 1,
    ensures
        r@.map_values(|t: String| t@) == shard_contents(pairs_view(pairs@), shard_len(pairs@.len(), n as nat)),
        r@.len() <= n,
{
    let total = pairs.len();
    assert((total as int) % (n as int) != 0 ==> (total as int) / (n as int) < (total as int)) by (nonlinear_arith)
        requires
            n >= 1;
    let c: usize = if total % n == 0 { total / n } else { total / n + 1 };
    assert(c as int == (total + n - 1) as int / n as int) by (nonlinear_arith)
        requires
            c as int == if total as int % n as int == 0 { total as int / n as int } else { total as int / n as int + 1 },
            n >= 1;
    let ghost pv = pairs_view(pairs@);
    let ghost cn = c as nat;
    assert(c as nat == shard_len(total as nat, n as nat));
    let mut r: Vec<String> = Vec::new();
    let mut start: usize = 0;
    proof {
        assert(pv.skip(0) =~= pv);
    }
    if total > 0 {
        assert(c >= 1) by (nonlinear_arith) requires c as int == (total + n - 1) as int / n as int, total > 0, n >= 1;
    }
    while start < total
        invariant
            start <= total,
            total == pairs@.len(),
            pv == pairs_view(pairs@),
            total > 0 ==> c >= 1,
            cn == c,
            r@.map_values(|t: String| t@) + shard_contents(pv.skip(start as int), cn) == shard_contents(pv, cn),
        decreases total - start,
    {
        let end: usize = if total - start <= c { total } else { start + c };
        let content = records_of(pairs, start, end);
        let ghost before = r@.map_values(|t: String| t@);
        r.push(content);
        proof {
            let rest = pv.skip(start as int);
            assert(rest.len() > 0);
            if rest.len() <= c {
                assert(rest =~= pv.subrange(start as int, end as int));
                assert(pv.skip(end as int) =~= Seq::<(Seq<char>, Seq<char>)>::empty());
                assert(shard_contents(pv.skip(end as int), cn) =~= Seq::<Seq<char>>::empty());
            } else {
                assert(rest.take(c as int) =~= pv.subrange(start as int, end as int));
                assert(rest.skip(c as int) =~= pv.skip(end as int));
            }
            assert(r@.map_values(|t: String| t@) =~= before.push(content@));
            assert(before + shard_contents(rest, cn) =~= before.push(content@) + shard_contents(pv.skip(end as int), cn));
        }
        start = end;
    }
    proof {
        assert(shard_contents(pv.skip(start as int), cn) =~= Seq::<Seq<char>>::empty());
        assert(r@.map_values(|t: String| t@) + Seq::<Seq<char>>::empty() =~= r@.map_values(|t: String| t@));
        lemma_shard_count(pv, cn, n as nat);
    }
    r
}

/// Cutting into runs of `ceil(total / n)` gives at most `n` shards.
proof fn lemma_shard_count(pv: Seq<(Seq<char>, Seq<char>)>, c: nat, n: nat)
    requires
        n >= 1,
        c == shard_len(pv.len(), n),
    ensures
        shard_contents(pv, c).len() <= n,
{
    lemma_shard_count_general(pv, c);
    if pv.len() > 0 {
        let t = pv.len() as int;
        let ci = c as int;
        let ni = n as int;
        assert(ci >= 1) by (nonlinear_arith) requires ci == (t + ni - 1) / ni, t > 0, ni >= 1;
        assert((t + ci - 1) / ci <= ni) by (nonlinear_arith) requires ci == (t + ni - 1) / ni, t > 0, ni >= 1, ci >= 1;
    }
}

/// There are `ceil(|pv| / c)` shards.
proof fn lemma_shard_count_general(pv: Seq<(Seq<char>, Seq<char>)>, c: nat)
    ensures
        c >= 1 ==> shard_contents(pv, c).len() == (pv.len() + c - 1) as int / c as int,
    decreases pv.len(),
{
    if c >= 1 && pv.len() > c {
        lemma_shard_count_general(pv.skip(c as int), c);
        let t = pv.len() as int;
        let ci = c as int;
        assert((t + ci - 1) / ci == (t - ci + ci - 1) / ci + 1) by (nonlinear_arith) requires t > ci, ci >= 1;
        assert(pv.skip(c as int).len() == t - ci);
    } else if c >= 1 && pv.len() > 0 {
        let t = pv.len() as int;
        let ci = c as int;
        assert((t + ci - 1) / ci == 1) by (nonlinear_arith) requires t <= ci, t > 0, ci >= 1;
    } else if c >= 1 {
        let ci = c as int;
        assert((ci - 1) / ci == 0) by (nonlinear_arith) requires ci >= 1;
    }
}

/// Groups as plain sequences: each key with its values in arrival order.
pub open spec fn groups_view(g: Seq<(String, Vec<String>)>) -> Seq<(Seq<char>, Seq<Seq<char>>)> {
    g.map_values(|p: (String, Vec<String>)| (p.0@, p.1@.map_values(|v: String| v@)))
}

/// No key stands in two groups.
pub open spec fn keys_distinct(g: Seq<(Seq<char>, Seq<Seq<char>>)>) -> bool {
    forall|a: int, b: int| 0 <= a < b < g.len() ==> (#[trigger] g[a]).0 != (#[trigger] g[b]).0
}

/// The groups once `(k, v)` has arrived: `v` joins the group of `k`, or opens one at the end.
pub open spec fn group_step(g: Seq<(Seq<char>, Seq<Seq<char>>)>, k: Seq<char>, v: Seq<char>) -> Seq<(Seq<char>, Seq<Seq<char>>)> {
    if exists|j: int| 0 <= j < g.len() && (#[trigger] g[j]).0 == k {
        let j = choose|j: int| 0 <= j < g.len() && (#[trigger] g[j]).0 == k;
        g.update(j, (k, g[j].1.push(v)))
    } else {
        g.push((k, seq![v]))
    }
}

/// The groups of `pairs`, keys in order of first arrival, values in arrival order.
pub open spec fn grouped(pairs: Seq<(Seq<char>, Seq<char>)>) -> Seq<(Seq<char>, Seq<Seq<char>>)>
    decreases pairs.len(),
{
    if pairs.len() == 0 {
        Seq::empty()
    } else {
        group_step(grouped(pairs.drop_last()), pairs.last().0, pairs.last().1)
    }
}

/// Adds one pair to the groups.
pub fn group_by_key(map: Vec<(String, Vec<String>)>, item: (String, String)) -> (r: Vec<(String, Vec<String>)>)
    requires
        keys_distinct(groups_view(map@)),
    ensures
        groups_view(r@) == group_step(groups_view(map@), item.0@, item.1@),
        keys_distinct(groups_view(r@)),
{
    let mut groups = map;
    let ghost g = groups_view(groups@);
    let (k, v) = item;
    let ghost vv = v@;
    assert(vv == item.1@ && k@ == item.0@);
    let mut j: usize = 0;
    while j < groups.len()
        invariant
            j <= groups@.len(),
            g == groups_view(groups@),
            g == groups_view(map@),
            keys_distinct(g),
            vv == item.1@,
            vv == v@,
            k@ == item.0@,
            forall|x: int| 0 <= x < j ==> (#[trigger] g[x]).0 != k@,
        decreases groups.len() - j,
    {
        if groups[j].0 == k {
            let mut entry: (String, Vec<String>) = (String::new(), Vec::new());
            groups.set_and_swap(j, &mut entry);
            let ghost vals = entry.1@;
            assert(g[j as int] == (entry.0@, vals.map_values(|v: String| v@)));
            let (ek, mut ev) = entry;
            ev.push(v);
            assert(ev@.map_values(|v: String| v@) =~= vals.map_values(|v: String| v@).push(vv));
            let mut entry = (ek, ev);
            groups.set_and_swap(j, &mut entry);
            proof {
                assert(g[j as int].0 == k@);
                let c = choose|c: int| 0 <= c < g.len() && (#[trigger] g[c]).0 == k@;
                if c != j {
                    if c < j {
                        assert(g[c].0 != k@);
                    } else {
                        assert(g[j as int].0 != g[c].0);
                    }
                }
                assert(c == j);
                assert(group_step(g, item.0@, item.1@) == g.update(j as int, (k@, g[j as int].1.push(item.1@))));
                assert(g == groups_view(map@));
                assert(groups_view(groups@) =~= g.update(j as int, (k@, g[j as int].1.push(item.1@))));
            }
            return groups;
        }
        j = j + 1;
    }
    let mut vals: Vec<String> = Vec::new();
    vals.push(v);
    groups.push((k, vals));
    proof {
        assert(vals@.map_values(|v: String| v@) =~= seq![item.1@]);
        assert(groups_view(groups@) =~= g.push((item.0@, seq![item.1@])));
    }
    groups
}

/// Groups all pairs by key, keys in order of first arrival, values in arrival order.
pub fn group_pairs(pairs: Vec<(String, String)>) -> (r: Vec<(String, Vec<String>)>)
    ensures
        groups_view(r@) == grouped(pairs_view(pairs@)),
        keys_distinct(groups_view(r@)),
{
    let ghost pv = pairs_view(pairs@);
    let mut pairs = pairs;
    let mut rev: Vec<(String, String)> = Vec::new();
    while pairs.len() > 0
        invariant
            pairs_view(pairs@) + pairs_view(rev@).reverse() == pv,
        decreases pairs.len(),
    {
        let ghost before = pairs@;
        let p = pairs.pop().unwrap();
        proof {
            assert(pairs_view(before) =~= pairs_view(pairs@).push((p.0@, p.1@)));
        }
        let ghost rv = rev@;
        rev.push(p);
        proof {
            assert(pairs_view(rev@).reverse() =~= seq![(p.0@, p.1@)] + pairs_view(rv).reverse());
            assert(pairs_view(pairs@) + pairs_view(rev@).reverse() =~= pairs_view(before) + pairs_view(rv).reverse());
        }
    }
    proof {
        assert(pairs_view(rev@).reverse() =~= pv);
    }
    let mut g: Vec<(String, Vec<String>)> = Vec::new();
    let ghost n = pv.len();
    proof {
        assert(groups_view(g@) =~= Seq::<(Seq<char>, Seq<Seq<char>>)>::empty());
        assert(pv.subrange(0, 0) =~= Seq::<(Seq<char>, Seq<char>)>::empty());
    }
    while rev.len() > 0
        invariant
            n == pv.len(),
            rev@.len() <= n,
            pairs_view(rev@).reverse() == pv.subrange(n - rev@.len(), n as int),
            groups_view(g@) == grouped(pv.subrange(0, n - rev@.len())),
            keys_distinct(groups_view(g@)),
        decreases rev.len(),
    {
        let ghost i = n - rev@.len();
        let ghost rv = rev@;
        let p = rev.pop().unwrap();
        proof {
            assert(pairs_view(rv).reverse()[0] == (p.0@, p.1@));
            assert(pv[i] == (p.0@, p.1@));
            let sub = pv.subrange(0, i + 1);
            assert(sub.drop_last() =~= pv.subrange(0, i));
            assert(sub.last() == pv[i]);
            assert(pairs_view(rev@) =~= pairs_view(rv).drop_last());
            assert(pairs_view(rev@).reverse() =~= pairs_view(rv).reverse().drop_first());
            assert(pairs_view(rev@).reverse() =~= pv.subrange(n - rev@.len(), n as int));
        }
        g = group_by_key(g, p);
    }
    proof {
        assert(pv.subrange(0, n as int) =~= pv);
    }
    g
}

/// The name of a reduce output for the intermediate path `first`: `{out_dir}/mr-out-{suffix}`,
/// where `suffix` is what follows the last `-` of `first` (all of it, without one).
pub open spec fn is_reduce_output_name(r: Seq<char>, out_dir: Seq<char>, first: Seq<char>) -> bool {
    exists|p: int|
        0 <= p <= first.len() && (p == 0 || first[p - 1] == '-')
            && (forall|q: int| p <= q < first.len() ==> #[trigger] first[q] != '-')
            && r == out_dir + seq!['/', 'm', 'r', '-', 'o', 'u', 't', '-'] + first.subrange(p, first.len() as int)
}

/// The path of the reduce output for a bin whose first intermediate path is `first`.
pub fn reduce_output_name(out_dir: &str, first: &str) -> (r: String)
    ensures
        is_reduce_output_name(r@, out_dir@, first@),
{
    let n = first.unicode_len();
    let mut p: usize = n;
    while p > 0
        invariant
            p <= n,
            n == first@.len(),
            forall|q: int| p <= q < n ==> #[trigger] first@[q] != '-',
        ensures
            p <= n,
            p == 0 || first@[p - 1] == '-',
            forall|q: int| p <= q < n ==> #[trigger] first@[q] != '-',
        decreases p,
    {
        if first.get_char(p - 1) == '-' {
            break;
        }
        p = p - 1;
    }
    proof {
        reveal_strlit("/mr-out-");
    }
    let head = cat(out_dir, "/mr-out-");
    let r = cat(head.as_str(), first.substring_char(p, n));
    proof {
        assert(r@ =~= out_dir@ + seq!['/', 'm', 'r', '-', 'o', 'u', 't', '-'] + first@.subrange(p as int, n as int));
        assert(is_reduce_output_name(r@, out_dir@, first@)) by {
            let w = p as int;
            assert(0 <= w <= first@.len() && (w == 0 || first@[w - 1] == '-'));
        }
    }
    r
}

/// The task identifier inside an intermediate path `mr-{taskId}_...`: characters 3 to 36.
pub open spec fn path_task_key(f: Seq<char>) -> Seq<char> {
    f.subrange(3, 36)
}

/// The paths that are the first of their task identifier, in order.
pub open spec fn first_per_task(s: Seq<Seq<char>>) -> Seq<Seq<char>>
    decreases s.len(),
{
    if s.len() == 0 {
        Seq::empty()
    } else {
        let rest = first_per_task(s.drop_last());
        if exists|j: int| 0 <= j < s.len() - 1 && path_task_key(#[trigger] s[j]) == path_task_key(s.last()) {
            rest
        } else {
            rest.push(s.last())
        }
    }
}

/// Keeps, of the intermediate paths, the first one of each task identifier.
pub fn distinction_intermediate_file(files: &Vec<String>) -> (r: Vec<String>)
    requires
        forall|i: int| 0 <= i < files@.len() ==> (#[trigger] files@[i])@.len() >= 36,
    ensures
        r@.map_values(|f: String| f@) == first_per_task(files@.map_values(|f: String| f@)),
{
    let ghost fv = files@.map_values(|f: String| f@);
    let mut r: Vec<String> = Vec::new();
    let mut i: usize = 0;
    while i < files.len()
        invariant
            i <= files@.len(),
            fv == files@.map_values(|f: String| f@),
            forall|x: int| 0 <= x < files@.len() ==> (#[trigger] files@[x])@.len() >= 36,
            r@.map_values(|f: String| f@) == first_per_task(fv.subrange(0, i as int)),
        decreases files.len() - i,
    {
        let key = files[i].as_str().substring_char(3, 36);
        let mut seen = false;
        let mut j: usize = 0;
        while j < i
            invariant
                j <= i,
                i < files@.len(),
                fv == files@.map_values(|f: String| f@),
                forall|x: int| 0 <= x < files@.len() ==> (#[trigger] files@[x])@.len() >= 36,
                key@ == path_task_key(fv[i as int]),
                !seen ==> forall|x: int| 0 <= x < j ==> path_task_key(#[trigger] fv[x]) != key@,
                seen ==> exists|x: int| 0 <= x < i && path_task_key(#[trigger] fv[x]) == key@,
            decreases i - j,
        {
            let other = String::from_str(files[j].as_str().substring_char(3, 36));
            let mine = String::from_str(key);
            if other == mine {
                assert(path_task_key(fv[j as int]) == key@);
                seen = true;
            }
            j = j + 1;
        }
        let ghost sub = fv.subrange(0, i + 1);
        proof {
            assert(sub.drop_last() =~= fv.subrange(0, i as int));
            assert(sub.last() == fv[i as int]);
            if seen {
                let x = choose|x: int| 0 <= x < i && path_task_key(#[trigger] fv[x]) == key@;
                assert(sub[x] == fv[x]);
            } else {
                assert forall|x: int| 0 <= x < sub.len() - 1 implies path_task_key(#[trigger] sub[x]) != path_task_key(sub.last()) by {
                    assert(sub[x] == fv[x]);
                }
            }
        }
        if !seen {
            let ghost rv = r@;
            r.push(files[i].clone());
            proof {
                assert(r@.map_values(|f: String| f@) =~= rv.map_values(|f: String| f@).push(fv[i as int]));
            }
        }
        i = i + 1;
    }
    proof {
        assert(fv.subrange(0, i as int) =~= fv);
    }
    r
}

} // verus!
