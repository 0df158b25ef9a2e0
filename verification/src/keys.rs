//! Parsing of SSH public key material.
//!
//! A fetched response or an `authorized_keys` file is a text of lines. A line
//! is kept when, after trimming surrounding whitespace, it starts with the
//! fixed type tag and base64 prefix of one of the six supported key types.
//! Kept lines are compared by their canonical form: the first two
//! space-separated fields (type and blob), with any trailing comment dropped.

use vstd::prelude::*;
use vstd::string::*;

verus! {

/// The view of a vector of strings: the sequence of their character sequences.
pub open spec fn views(v: Seq<String>) -> Seq<Seq<char>> {
    v.map_values(|s: String| s@)
}

/// Whitespace as trimmed from line ends.
pub open spec fn is_space(c: char) -> bool {
    c == ' ' || c == '\t' || c == '\r' || c == '\n' || c == '\u{b}' || c == '\u{c}'
}

/// A line with its leading whitespace removed.
pub open spec fn trim_start_rec(s: Seq<char>) -> Seq<char>
    decreases s.len(),
{
    if s.len() > 0 && is_space(s[0]) {
        trim_start_rec(s.drop_first())
    } else {
        s
    }
}

/// A line with its trailing whitespace removed.
pub open spec fn trim_end_rec(s: Seq<char>) -> Seq<char>
    decreases s.len(),
{
    if s.len() > 0 && is_space(s.last()) {
        trim_end_rec(s.drop_last())
    } else {
        s
    }
}

/// A line with whitespace removed from both ends.
pub open spec fn trimmed(s: Seq<char>) -> Seq<char> {
    trim_end_rec(trim_start_rec(s))
}

/// `p` is a prefix of `s`.
pub open spec fn starts_with(s: Seq<char>, p: Seq<char>) -> bool {
    p.len() <= s.len() && s.subrange(0, p.len() as int) == p
}

/// A trimmed line is kept exactly when it starts with the type tag and fixed
/// base64 prefix of one of the six supported key types.
pub open spec fn is_supported_key(line: Seq<char>) -> bool {
    ||| starts_with(line, "ssh-rsa AAAAB3NzaC1yc2"@)
    ||| starts_with(line, "ecdsa-sha2-nistp256 AAAAE2VjZHNhLXNoYTItbmlzdHAyNT"@)
    ||| starts_with(line, "ecdsa-sha2-nistp384 AAAAE2VjZHNhLXNoYTItbmlzdHAzODQAAAAIbmlzdHAzOD"@)
    ||| starts_with(line, "ecdsa-sha2-nistp521 AAAAE2VjZHNhLXNoYTItbmlzdHA1MjEAAAAIbmlzdHA1Mj"@)
    ||| starts_with(line, "ssh-ed25519 AAAAC3NzaC1lZDI1NTE5"@)
    ||| starts_with(line, "ssh-dss AAAAB3NzaC1kc3"@)
}

/// The prefix of `s` that ends just before its second space; `s` itself when
/// it holds fewer than two spaces. `seen` counts spaces already passed.
pub open spec fn cut_at_second_space(s: Seq<char>, seen: nat) -> Seq<char>
    decreases s.len(),
{
    if s.len() == 0 {
        s
    } else if s[0] == ' ' {
        if seen >= 1 {
            Seq::empty()
        } else {
            seq![' '] + cut_at_second_space(s.drop_first(), seen + 1)
        }
    } else {
        seq![s[0]] + cut_at_second_space(s.drop_first(), seen)
    }
}

/// The canonical form of a key line: its first two space-separated fields,
/// that is, the type and the blob, with any trailing comment dropped.
pub open spec fn canon(s: Seq<char>) -> Seq<char> {
    cut_at_second_space(s, 0)
}

/// The canonical forms of a list of lines.
pub open spec fn canon_seq(lines: Seq<Seq<char>>) -> Seq<Seq<char>> {
    lines.map_values(|l: Seq<char>| canon(l))
}

/// The lines of `s`, split at every newline.
pub open spec fn split_lines(s: Seq<char>) -> Seq<Seq<char>>
    decreases s.len(),
{
    if s.len() == 0 {
        seq![Seq::<char>::empty()]
    } else if s[0] == '\n' {
        seq![Seq::<char>::empty()] + split_lines(s.drop_first())
    } else {
        let rest = split_lines(s.drop_first());
        seq![seq![s[0]] + rest[0]] + rest.drop_first()
    }
}

/// The kept key lines among a list of raw lines: each trimmed, keeping
/// those that carry a supported key type.
pub open spec fn lines_keys(ls: Seq<Seq<char>>) -> Seq<Seq<char>> {
    ls.map_values(|l: Seq<char>| trimmed(l)).filter(|l: Seq<char>| is_supported_key(l))
}

/// The kept key lines of a text: each line trimmed, keeping those that carry
/// a supported key type.
pub open spec fn keys_of(s: Seq<char>) -> Seq<Seq<char>> {
    lines_keys(split_lines(s))
}

/// Whether `c` is line-end whitespace.
pub fn is_space_char(c: char) -> (b: bool)
    ensures
        b == is_space(c),
{
    c == ' ' || c == '\t' || c == '\r' || c == '\n' || c == '\u{b}' || c == '\u{c}'
}

/// Character-for-character equality of two string slices.
pub fn str_eq(a: &str, b: &str) -> (r: bool)
    ensures
        r == (a@ == b@),
{
    let an = a.unicode_len();
    let bn = b.unicode_len();
    if an != bn {
        return false;
    }
    let mut i: usize = 0;
    while i < an
        invariant
            i <= an,
            an == a@.len(),
            an == b@.len(),
            forall|j: int| 0 <= j < i ==> a@[j] == b@[j],
        decreases an - i,
    {
        if a.get_char(i) != b.get_char(i) {
            return false;
        }
        i += 1;
    }
    proof {
        assert(a@ =~= b@);
    }
    true
}

/// Whether `p` is a prefix of `s`.
pub fn starts_with_str(s: &str, p: &str) -> (b: bool)
    ensures
        b == starts_with(s@, p@),
{
    let sn = s.unicode_len();
    let pn = p.unicode_len();
    if pn > sn {
        return false;
    }
    let mut i: usize = 0;
    while i < pn
        invariant
            i <= pn,
            pn == p@.len(),
            sn == s@.len(),
            pn <= sn,
            forall|j: int| 0 <= j < i ==> s@[j] == p@[j],
        decreases pn - i,
    {
        if s.get_char(i) != p.get_char(i) {
            proof {
                assert(s@.subrange(0, pn as int)[i as int] != p@[i as int]);
            }
            return false;
        }
        i += 1;
    }
    proof {
        assert(s@.subrange(0, pn as int) =~= p@);
    }
    true
}

/// Whether a (trimmed) line carries one of the six supported key types.
pub fn is_supported_key_line(line: &str) -> (b: bool)
    ensures
        b == is_supported_key(line@),
{
    starts_with_str(line, "ssh-rsa AAAAB3NzaC1yc2")
        || starts_with_str(line, "ecdsa-sha2-nistp256 AAAAE2VjZHNhLXNoYTItbmlzdHAyNT")
        || starts_with_str(line, "ecdsa-sha2-nistp384 AAAAE2VjZHNhLXNoYTItbmlzdHAzODQAAAAIbmlzdHAzOD")
        || starts_with_str(line, "ecdsa-sha2-nistp521 AAAAE2VjZHNhLXNoYTItbmlzdHA1MjEAAAAIbmlzdHA1Mj")
        || starts_with_str(line, "ssh-ed25519 AAAAC3NzaC1lZDI1NTE5")
        || starts_with_str(line, "ssh-dss AAAAB3NzaC1kc3")
}

proof fn lemma_trim_start_at(s: Seq<char>, lo: int)
    requires
        0 <= lo <= s.len(),
        forall|j: int| 0 <= j < lo ==> is_space(s[j]),
        lo == s.len() || !is_space(s[lo]),
    ensures
        trim_start_rec(s) == s.subrange(lo, s.len() as int),
    decreases lo,
{
    if lo == 0 {
        assert(trim_start_rec(s) == s);
        assert(s.subrange(0, s.len() as int) =~= s);
    } else {
        assert(is_space(s[0]));
        lemma_trim_start_at(s.drop_first(), lo - 1);
        assert(s.drop_first().subrange(lo - 1, s.drop_first().len() as int) =~= s.subrange(
            lo,
            s.len() as int,
        ));
    }
}

proof fn lemma_trim_end_at(s: Seq<char>, hi: int)
    requires
        0 <= hi <= s.len(),
        forall|j: int| hi <= j < s.len() ==> is_space(s[j]),
        hi == 0 || !is_space(s[hi - 1]),
    ensures
        trim_end_rec(s) == s.subrange(0, hi),
    decreases s.len() - hi,
{
    if hi == s.len() {
        assert(trim_end_rec(s) == s);
        assert(s.subrange(0, s.len() as int) =~= s);
    } else {
        assert(is_space(s.last()));
        assert(s.drop_last() =~= s.subrange(0, s.len() - 1));
        lemma_trim_end_at(s.drop_last(), hi);
        assert(s.drop_last().subrange(0, hi) =~= s.subrange(0, hi));
    }
}

/// A line with whitespace removed from both ends.
pub fn trim_str(s: &str) -> (r: &str)
    ensures
        r@ == trimmed(s@),
{
    let n = s.unicode_len();
    let mut lo: usize = 0;
    while lo < n && is_space_char(s.get_char(lo))
        invariant
            lo <= n,
            n == s@.len(),
            forall|j: int| 0 <= j < lo ==> is_space(s@[j]),
        decreases n - lo,
    {
        lo += 1;
    }
    proof {
        lemma_trim_start_at(s@, lo as int);
    }
    let mut hi: usize = n;
    while hi > lo && is_space_char(s.get_char(hi - 1))
        invariant
            lo <= hi <= n,
            n == s@.len(),
            forall|j: int| hi <= j < n ==> is_space(s@[j]),
        decreases hi,
    {
        hi -= 1;
    }
    proof {
        let t = s@.subrange(lo as int, n as int);
        lemma_trim_end_at(t, hi - lo);
        assert(t.subrange(0, hi - lo) =~= s@.subrange(lo as int, hi as int));
    }
    s.substring_char(lo, hi)
}

proof fn lemma_cut_after_first(s: Seq<char>, j: int)
    requires
        0 <= j <= s.len(),
        forall|k: int| 0 <= k < j ==> s[k] != ' ',
        j == s.len() || s[j] == ' ',
    ensures
        cut_at_second_space(s, 1) == s.subrange(0, j),
    decreases j,
{
    if s.len() == 0 {
        assert(s.subrange(0, 0) =~= s);
    } else if j == 0 {
        assert(s[0] == ' ');
        assert(s.subrange(0, 0) =~= Seq::<char>::empty());
    } else {
        assert(s[0] != ' ');
        lemma_cut_after_first(s.drop_first(), j - 1);
        assert(s.drop_first().subrange(0, j - 1) =~= s.subrange(1, j));
        assert(seq![s[0]] + s.subrange(1, j) =~= s.subrange(0, j));
    }
}

proof fn lemma_canon_at(s: Seq<char>, i: int, j: int)
    requires
        0 <= i < j <= s.len(),
        s[i] == ' ',
        forall|k: int| 0 <= k < j && k != i ==> s[k] != ' ',
        j == s.len() || s[j] == ' ',
    ensures
        canon(s) == s.subrange(0, j),
    decreases i,
{
    lemma_canon_at_general(s, i, j);
}

proof fn lemma_canon_at_general(s: Seq<char>, i: int, j: int)
    requires
        0 <= i < j <= s.len(),
        s[i] == ' ',
        forall|k: int| 0 <= k < j && k != i ==> s[k] != ' ',
        j == s.len() || s[j] == ' ',
    ensures
        cut_at_second_space(s, 0) == s.subrange(0, j),
    decreases i,
{
    if i == 0 {
        assert(s[0] == ' ');
        lemma_cut_after_first(s.drop_first(), j - 1);
        assert(s.drop_first().subrange(0, j - 1) =~= s.subrange(1, j));
        assert(seq![' '] + s.subrange(1, j) =~= s.subrange(0, j));
    } else {
        assert(s[0] != ' ');
        lemma_canon_at_general(s.drop_first(), i - 1, j - 1);
        assert(s.drop_first().subrange(0, j - 1) =~= s.subrange(1, j));
        assert(seq![s[0]] + s.subrange(1, j) =~= s.subrange(0, j));
    }
}

proof fn lemma_canon_no_space(s: Seq<char>)
    requires
        forall|k: int| 0 <= k < s.len() ==> s[k] != ' ',
    ensures
        canon(s) == s,
    decreases s.len(),
{
    lemma_cut_no_space(s, 0);
}

proof fn lemma_cut_no_space(s: Seq<char>, seen: nat)
    requires
        forall|k: int| 0 <= k < s.len() ==> s[k] != ' ',
    ensures
        cut_at_second_space(s, seen) == s,
    decreases s.len(),
{
    if s.len() > 0 {
        lemma_cut_no_space(s.drop_first(), seen);
        assert(seq![s[0]] + s.drop_first() =~= s);
    }
}

proof fn lemma_cut_idempotent(s: Seq<char>, seen: nat)
    requires
        seen <= 1,
    ensures
        cut_at_second_space(cut_at_second_space(s, seen), seen) == cut_at_second_space(s, seen),
    decreases s.len(),
{
    if s.len() == 0 {
    } else if s[0] == ' ' {
        if seen >= 1 {
        } else {
            lemma_cut_idempotent(s.drop_first(), (seen + 1) as nat);
            let inner = cut_at_second_space(s.drop_first(), (seen + 1) as nat);
            let outer = seq![' '] + inner;
            assert(outer[0] == ' ');
            assert(outer.drop_first() =~= inner);
        }
    } else {
        lemma_cut_idempotent(s.drop_first(), seen);
        let inner = cut_at_second_space(s.drop_first(), seen);
        let outer = seq![s[0]] + inner;
        assert(outer[0] == s[0]);
        assert(outer.drop_first() =~= inner);
    }
}

/// Taking the canonical form of a line twice gives the same result as taking
/// it once: canonicalisation is idempotent, for every line.
pub proof fn lemma_canon_idempotent(s: Seq<char>)
    ensures
        canon(canon(s)) == canon(s),
{
    lemma_cut_idempotent(s, 0);
}

/// The canonical form of a key line: its first two space-separated fields,
/// with any trailing comment dropped.
pub fn canonicalize(line: &str) -> (r: String)
    ensures
        r@ == canon(line@),
{
    let n = line.unicode_len();
    let mut i: usize = 0;
    while i < n && line.get_char(i) != ' '
        invariant
            i <= n,
            n == line@.len(),
            forall|k: int| 0 <= k < i ==> line@[k] != ' ',
        decreases n - i,
    {
        i += 1;
    }
    if i == n {
        proof {
            lemma_canon_no_space(line@);
        }
        return line.to_owned();
    }
    let mut j: usize = i + 1;
    while j < n && line.get_char(j) != ' '
        invariant
            i < j <= n,
            n == line@.len(),
            forall|k: int| i < k < j ==> line@[k] != ' ',
            forall|k: int| 0 <= k < i ==> line@[k] != ' ',
            line@[i as int] == ' ',
        decreases n - j,
    {
        j += 1;
    }
    proof {
        lemma_canon_at(line@, i as int, j as int);
    }
    line.substring_char(0, j).to_owned()
}

/// The canonical forms of a list of key lines.
pub fn clean_keys(original_keys: Vec<String>) -> (r: Vec<String>)
    ensures
        views(r@) == canon_seq(views(original_keys@)),
{
    let mut r: Vec<String> = Vec::new();
    let mut i: usize = 0;
    while i < original_keys.len()
        invariant
            i <= original_keys@.len(),
            views(r@) =~= canon_seq(views(original_keys@.subrange(0, i as int))),
        decreases original_keys@.len() - i,
    {
        let c = canonicalize(original_keys[i].as_str());
        let ghost r0 = r@;
        r.push(c);
        proof {
            let prev = views(original_keys@.subrange(0, i as int));
            let next = views(original_keys@.subrange(0, i + 1));
            assert(next =~= prev.push(original_keys@[i as int]@));
            assert(canon_seq(next) =~= canon_seq(prev).push(canon(original_keys@[i as int]@)));
            assert(views(r@) =~= views(r0).push(c@));
        }
        i += 1;
    }
    proof {
        assert(original_keys@.subrange(0, original_keys@.len() as int) =~= original_keys@);
    }
    r
}

pub proof fn lemma_split_lines_nonempty(s: Seq<char>)
    ensures
        split_lines(s).len() >= 1,
    decreases s.len(),
{
    if s.len() > 0 {
        lemma_split_lines_nonempty(s.drop_first());
    }
}

/// A text with no newline is a single line.
pub proof fn lemma_split_lines_whole(s: Seq<char>)
    requires
        forall|k: int| 0 <= k < s.len() ==> s[k] != '\n',
    ensures
        split_lines(s) == seq![s],
    decreases s.len(),
{
    if s.len() == 0 {
        assert(seq![Seq::<char>::empty()] =~~= seq![s]);
    } else {
        lemma_split_lines_whole(s.drop_first());
        let rest = split_lines(s.drop_first());
        assert(rest[0] == s.drop_first());
        assert(seq![s[0]] + s.drop_first() =~= s);
        assert(rest.drop_first() =~= Seq::<Seq<char>>::empty());
        assert(seq![seq![s[0]] + rest[0]] + rest.drop_first() =~~= seq![s]);
    }
}

/// Splitting distributes over a newline: the lines of `a + '\n' + b` are the
/// lines of `a` followed by the lines of `b`.
pub proof fn lemma_split_lines_concat(a: Seq<char>, b: Seq<char>)
    ensures
        split_lines(a + seq!['\n'] + b) == split_lines(a) + split_lines(b),
    decreases a.len(),
{
    lemma_split_lines_nonempty(b);
    let s = a + seq!['\n'] + b;
    if a.len() == 0 {
        assert(s =~= seq!['\n'] + b);
        assert(s[0] == '\n');
        assert(s.drop_first() =~= b);
        assert(split_lines(a) =~= seq![Seq::<char>::empty()]);
        assert(split_lines(s) =~= seq![Seq::<char>::empty()] + split_lines(b));
    } else {
        assert(s[0] == a[0]);
        assert(s.drop_first() =~= a.drop_first() + seq!['\n'] + b);
        lemma_split_lines_concat(a.drop_first(), b);
        lemma_split_lines_nonempty(a.drop_first());
        let rest = split_lines(a.drop_first() + seq!['\n'] + b);
        assert(rest == split_lines(a.drop_first()) + split_lines(b));
        if a[0] == '\n' {
            assert(a.drop_first() + seq!['\n'] + b == s.drop_first());
            assert(split_lines(s) == seq![Seq::<char>::empty()] + rest);
            assert(split_lines(a) == seq![Seq::<char>::empty()] + split_lines(a.drop_first()));
            assert(seq![Seq::<char>::empty()] + (split_lines(a.drop_first()) + split_lines(b))
                =~= (seq![Seq::<char>::empty()] + split_lines(a.drop_first())) + split_lines(b));
        } else {
            assert(rest[0] == split_lines(a.drop_first())[0]);
            assert(rest.drop_first() =~= split_lines(a.drop_first()).drop_first()
                + split_lines(b));
            let ra = split_lines(a.drop_first());
            assert(split_lines(s) == seq![seq![s[0]] + rest[0]] + rest.drop_first());
            assert(split_lines(a) == seq![seq![a[0]] + ra[0]] + ra.drop_first());
            assert(seq![seq![a[0]] + ra[0]] + (ra.drop_first() + split_lines(b)) =~= (seq![
                seq![a[0]] + ra[0],
            ] + ra.drop_first()) + split_lines(b));
        }
    }
}

/// Every kept key line starts with one of the six supported type prefixes;
/// a text holding none of them yields no keys at all.
pub proof fn lemma_keys_of_supported(s: Seq<char>)
    ensures
        forall|i: int| 0 <= i < keys_of(s).len() ==> is_supported_key(#[trigger] keys_of(s)[i]),
        (forall|l: Seq<char>| split_lines(s).contains(l) ==> !is_supported_key(trimmed(l)))
            ==> keys_of(s).len() == 0,
{
    broadcast use vstd::seq_lib::group_filter_ensures;

    let mapped = split_lines(s).map_values(|l: Seq<char>| trimmed(l));
    let pred = |l: Seq<char>| is_supported_key(l);
    assert forall|i: int| 0 <= i < keys_of(s).len() implies is_supported_key(
        #[trigger] keys_of(s)[i],
    ) by {
        assert(pred(mapped.filter(pred)[i]));
    }
    if forall|l: Seq<char>| #[trigger] split_lines(s).contains(l) ==> !is_supported_key(trimmed(l)) {
        if keys_of(s).len() > 0 {
            let k = keys_of(s)[0];
            assert(mapped.filter(pred).contains(k));
            mapped.lemma_filter_contains_rev(pred, k);
            let i = choose|i: int| 0 <= i < mapped.len() && mapped[i] == k;
            assert(split_lines(s).contains(split_lines(s)[i]));
            assert(false);
        }
    }
}

/// The kept key lines of a text, in order: each line is split at newlines,
/// trimmed, and kept only when it carries a supported key type. Lines that do
/// not parse as a supported key are silently dropped.
pub fn split_keys(all_keys: &str) -> (r: Vec<String>)
    ensures
        views(r@) == keys_of(all_keys@),
{
    let n = all_keys.unicode_len();
    let mut r: Vec<String> = Vec::new();
    proof {
        assert(all_keys@.subrange(0, n as int) =~= all_keys@);
    }
    let mut start: usize = 0;
    let mut i: usize = 0;
    while i < n
        invariant
            start <= i <= n,
            n == all_keys@.len(),
            forall|k: int| start <= k < i ==> all_keys@[k] != '\n',
            keys_of(all_keys@) =~= views(r@) + keys_of(
                all_keys@.subrange(start as int, n as int),
            ),
        decreases n - i,
    {
        if all_keys.get_char(i) == '\n' {
            let line = all_keys.substring_char(start, i);
            let t = trim_str(line);
            let ghost r0 = r@;
            let keep = is_supported_key_line(t);
            if keep {
                r.push(t.to_owned());
            }
            proof {
                let suffix = all_keys@.subrange(start as int, n as int);
                let head = all_keys@.subrange(start as int, i as int);
                let tail = all_keys@.subrange(i + 1, n as int);
                assert(suffix =~= head + seq!['\n'] + tail);
                lemma_split_lines_concat(head, tail);
                lemma_split_lines_whole(head);
                assert(split_lines(suffix) =~= seq![head] + split_lines(tail));
                let tr = |l: Seq<char>| trimmed(l);
                let pred = |l: Seq<char>| is_supported_key(l);
                assert(split_lines(suffix).map_values(tr) =~= seq![trimmed(head)] + split_lines(
                    tail,
                ).map_values(tr));
                Seq::<Seq<char>>::filter_distributes_over_add(
                    seq![trimmed(head)],
                    split_lines(tail).map_values(tr),
                    pred,
                );
                reveal_with_fuel(Seq::<_>::filter, 2);
                assert(line@ == head);
                if keep {
                    assert(seq![trimmed(head)].filter(pred) =~= seq![trimmed(head)]);
                    assert(views(r@) =~= views(r0).push(t@));
                    assert(views(r@) + keys_of(tail) =~= views(r0) + (seq![trimmed(head)]
                        + keys_of(tail)));
                } else {
                    assert(seq![trimmed(head)].filter(pred) =~= Seq::<Seq<char>>::empty());
                }
            }
            start = i + 1;
        }
        i += 1;
    }
    let line = all_keys.substring_char(start, n);
    let t = trim_str(line);
    let ghost r0 = r@;
    let keep = is_supported_key_line(t);
    if keep {
        r.push(t.to_owned());
    }
    proof {
        let suffix = all_keys@.subrange(start as int, n as int);
        lemma_split_lines_whole(suffix);
        let tr = |l: Seq<char>| trimmed(l);
        let pred = |l: Seq<char>| is_supported_key(l);
        assert(split_lines(suffix).map_values(tr) =~= seq![trimmed(suffix)]);
        reveal_with_fuel(Seq::<_>::filter, 2);
        assert(line@ == suffix);
        if keep {
            assert(keys_of(suffix) =~= seq![trimmed(suffix)]);
            assert(views(r@) =~= views(r0).push(t@));
        } else {
            assert(keys_of(suffix) =~= Seq::<Seq<char>>::empty());
        }
        assert(views(r@) =~= keys_of(all_keys@));
    }
    r
}


/// The genuinely new keys of `ks` against the canonical forms in `seen`: the
/// keys whose canonical form is neither in `seen` nor that of an earlier kept
/// key, in order, first occurrence winning.
pub open spec fn select_new(ks: Seq<Seq<char>>, seen: Seq<Seq<char>>) -> Seq<Seq<char>>
    decreases ks.len(),
{
    if ks.len() == 0 {
        Seq::empty()
    } else if seen.contains(canon(ks[0])) {
        select_new(ks.drop_first(), seen)
    } else {
        seq![ks[0]] + select_new(ks.drop_first(), seen.push(canon(ks[0])))
    }
}

/// Whether some string of `v` has exactly the characters of `s`.
pub fn contains_str(v: &Vec<String>, s: &str) -> (b: bool)
    ensures
        b == views(v@).contains(s@),
{
    let mut i: usize = 0;
    while i < v.len()
        invariant
            i <= v@.len(),
            forall|j: int| 0 <= j < i ==> views(v@)[j] != s@,
        decreases v@.len() - i,
    {
        if str_eq(v[i].as_str(), s) {
            assert(views(v@)[i as int] == s@);
            return true;
        }
        i += 1;
    }
    assert(forall|j: int| 0 <= j < views(v@).len() ==> views(v@)[j] != s@);
    false
}

/// The keys of `to_add` that are genuinely new against `exist`, compared by
/// canonical (type, blob) form, in their original order; among keys of
/// `to_add` with the same canonical form the first occurrence wins.
pub fn filter_keys(to_add: Vec<String>, exist: Vec<String>) -> (r: Vec<String>)
    ensures
        views(r@) == select_new(views(to_add@), canon_seq(views(exist@))),
{
    let mut seen: Vec<String> = Vec::new();
    let mut i: usize = 0;
    while i < exist.len()
        invariant
            i <= exist@.len(),
            views(seen@) =~= canon_seq(views(exist@.subrange(0, i as int))),
        decreases exist@.len() - i,
    {
        let c = canonicalize(exist[i].as_str());
        let ghost s0 = seen@;
        seen.push(c);
        proof {
            let prev = views(exist@.subrange(0, i as int));
            let next = views(exist@.subrange(0, i + 1));
            assert(next =~= prev.push(exist@[i as int]@));
            assert(canon_seq(next) =~= canon_seq(prev).push(canon(exist@[i as int]@)));
            assert(views(seen@) =~= views(s0).push(c@));
        }
        i += 1;
    }
    proof {
        assert(exist@.subrange(0, exist@.len() as int) =~= exist@);
    }
    let ghost ks = views(to_add@);
    proof {
        assert(ks.subrange(0, ks.len() as int) =~= ks);
    }
    let mut r: Vec<String> = Vec::new();
    let mut i: usize = 0;
    while i < to_add.len()
        invariant
            i <= to_add@.len(),
            ks == views(to_add@),
            select_new(ks, canon_seq(views(exist@))) =~= views(r@) + select_new(
                ks.subrange(i as int, ks.len() as int),
                views(seen@),
            ),
        decreases to_add@.len() - i,
    {
        let c = canonicalize(to_add[i].as_str());
        let ghost suffix = ks.subrange(i as int, ks.len() as int);
        proof {
            assert(suffix[0] == ks[i as int]);
            assert(suffix.drop_first() =~= ks.subrange(i + 1, ks.len() as int));
        }
        if contains_str(&seen, c.as_str()) {
            proof {
                assert(views(seen@).contains(canon(suffix[0])));
            }
        } else {
            let ghost r0 = r@;
            let ghost s0 = seen@;
            r.push(to_add[i].clone());
            seen.push(c);
            proof {
                assert(views(r@) =~= views(r0).push(ks[i as int]));
                assert(views(seen@) =~= views(s0).push(canon(suffix[0])));
                assert(select_new(suffix, views(s0)) == seq![suffix[0]] + select_new(
                    suffix.drop_first(),
                    views(s0).push(canon(suffix[0])),
                ));
                assert(views(r0) + (seq![ks[i as int]] + select_new(
                    suffix.drop_first(),
                    views(seen@),
                )) =~= views(r@) + select_new(suffix.drop_first(), views(seen@)));
            }
        }
        i += 1;
    }
    proof {
        assert(ks.subrange(ks.len() as int, ks.len() as int) =~= Seq::<Seq<char>>::empty());
        assert(views(r@) =~= select_new(views(to_add@), canon_seq(views(exist@))));
    }
    r
}


/// Keeping key lines distributes over concatenation of line lists.
pub proof fn lemma_lines_keys_add(a: Seq<Seq<char>>, b: Seq<Seq<char>>)
    ensures
        lines_keys(a + b) == lines_keys(a) + lines_keys(b),
{
    let tr = |l: Seq<char>| trimmed(l);
    let pred = |l: Seq<char>| is_supported_key(l);
    assert((a + b).map_values(tr) =~= a.map_values(tr) + b.map_values(tr));
    Seq::<Seq<char>>::filter_distributes_over_add(a.map_values(tr), b.map_values(tr), pred);
}

/// The key lines of a single raw line.
pub proof fn lemma_lines_keys_single(l: Seq<char>)
    ensures
        lines_keys(seq![l]) == if is_supported_key(trimmed(l)) {
            seq![trimmed(l)]
        } else {
            Seq::<Seq<char>>::empty()
        },
{
    let tr = |lx: Seq<char>| trimmed(lx);
    let pred = |lx: Seq<char>| is_supported_key(lx);
    assert(seq![l].map_values(tr) =~= seq![trimmed(l)]);
    reveal_with_fuel(Seq::<_>::filter, 2);
    if is_supported_key(trimmed(l)) {
        assert(seq![trimmed(l)].filter(pred) =~= seq![trimmed(l)]);
    } else {
        assert(seq![trimmed(l)].filter(pred) =~= Seq::<Seq<char>>::empty());
    }
}

/// A supported key line is never empty.
pub proof fn lemma_supported_nonempty(k: Seq<char>)
    requires
        is_supported_key(k),
    ensures
        k.len() > 0,
{
    reveal_strlit("ssh-rsa AAAAB3NzaC1yc2");
    reveal_strlit("ecdsa-sha2-nistp256 AAAAE2VjZHNhLXNoYTItbmlzdHAyNT");
    reveal_strlit("ecdsa-sha2-nistp384 AAAAE2VjZHNhLXNoYTItbmlzdHAzODQAAAAIbmlzdHAzOD");
    reveal_strlit("ecdsa-sha2-nistp521 AAAAE2VjZHNhLXNoYTItbmlzdHA1MjEAAAAIbmlzdHA1Mj");
    reveal_strlit("ssh-ed25519 AAAAC3NzaC1lZDI1NTE5");
    reveal_strlit("ssh-dss AAAAB3NzaC1kc3");
}

/// What the selection keeps: every kept key comes from the input list, its
/// canonical form was not already seen, and no two kept keys share a
/// canonical form.
pub proof fn lemma_select_new_props(ks: Seq<Seq<char>>, seen: Seq<Seq<char>>)
    ensures
        forall|i: int|
            0 <= i < select_new(ks, seen).len() ==> ks.contains(
                #[trigger] select_new(ks, seen)[i],
            ),
        forall|i: int|
            0 <= i < select_new(ks, seen).len() ==> !seen.contains(
                canon(#[trigger] select_new(ks, seen)[i]),
            ),
        forall|i: int, j: int|
            0 <= i < j < select_new(ks, seen).len() ==> canon(select_new(ks, seen)[i]) != canon(
                select_new(ks, seen)[j],
            ),
    decreases ks.len(),
{
    if ks.len() == 0 {
    } else if seen.contains(canon(ks[0])) {
        lemma_select_new_props(ks.drop_first(), seen);
        let sel = select_new(ks, seen);
        assert forall|i: int| 0 <= i < sel.len() implies ks.contains(#[trigger] sel[i]) by {
            assert(sel[i] == select_new(ks.drop_first(), seen)[i]);
            assert(ks.drop_first().contains(sel[i]));
            let j = choose|j: int|
                0 <= j < ks.drop_first().len() && ks.drop_first()[j] == sel[i];
            assert(ks[j + 1] == sel[i]);
        }
        assert forall|i: int| 0 <= i < sel.len() implies !seen.contains(
            canon(#[trigger] sel[i]),
        ) by {
            assert(sel[i] == select_new(ks.drop_first(), seen)[i]);
        }
    } else {
        let c0 = canon(ks[0]);
        let seen2 = seen.push(c0);
        lemma_select_new_props(ks.drop_first(), seen2);
        let sel = select_new(ks, seen);
        let sel2 = select_new(ks.drop_first(), seen2);
        assert(sel == seq![ks[0]] + sel2);
        assert forall|i: int| 0 <= i < sel.len() implies ks.contains(#[trigger] sel[i]) by {
            if i == 0 {
                assert(ks[0] == sel[0]);
            } else {
                assert(sel[i] == sel2[i - 1]);
                assert(ks.drop_first().contains(sel2[i - 1]));
                let j = choose|j: int|
                    0 <= j < ks.drop_first().len() && ks.drop_first()[j] == sel2[i - 1];
                assert(ks[j + 1] == sel[i]);
            }
        }
        assert forall|i: int| 0 <= i < sel.len() implies !seen.contains(
            canon(#[trigger] sel[i]),
        ) by {
            if i > 0 {
                assert(sel[i] == sel2[i - 1]);
                assert(!seen2.contains(canon(sel2[i - 1])));
                if seen.contains(canon(sel[i])) {
                    let j = choose|j: int| 0 <= j < seen.len() && seen[j] == canon(sel[i]);
                    assert(seen2[j] == canon(sel[i]));
                    assert(false);
                }
            }
        }
        assert forall|i: int, j: int| 0 <= i < j < sel.len() implies canon(sel[i]) != canon(
            sel[j],
        ) by {
            if i == 0 {
                assert(sel[j] == sel2[j - 1]);
                assert(!seen2.contains(canon(sel2[j - 1])));
                assert(seen2[seen.len() as int] == c0);
                assert(seen2.contains(c0));
            } else {
                assert(sel[i] == sel2[i - 1]);
                assert(sel[j] == sel2[j - 1]);
            }
        }
    }
}

/// Every input key's canonical form ends up either among what was already
/// seen or among the canonical forms of the kept keys.
pub proof fn lemma_select_new_covers(ks: Seq<Seq<char>>, seen: Seq<Seq<char>>)
    ensures
        forall|i: int|
            0 <= i < ks.len() ==> seen.contains(canon(#[trigger] ks[i])) || canon_seq(
                select_new(ks, seen),
            ).contains(canon(ks[i])),
    decreases ks.len(),
{
    if ks.len() == 0 {
    } else if seen.contains(canon(ks[0])) {
        lemma_select_new_covers(ks.drop_first(), seen);
        let sel = select_new(ks, seen);
        assert forall|i: int| 0 <= i < ks.len() implies seen.contains(canon(#[trigger] ks[i]))
            || canon_seq(sel).contains(canon(ks[i])) by {
            if i > 0 {
                assert(ks.drop_first()[i - 1] == ks[i]);
            }
        }
    } else {
        let c0 = canon(ks[0]);
        let seen2 = seen.push(c0);
        lemma_select_new_covers(ks.drop_first(), seen2);
        let sel = select_new(ks, seen);
        let sel2 = select_new(ks.drop_first(), seen2);
        assert(sel == seq![ks[0]] + sel2);
        assert(canon_seq(sel)[0] == c0);
        assert forall|i: int| 0 <= i < ks.len() implies seen.contains(canon(#[trigger] ks[i]))
            || canon_seq(sel).contains(canon(ks[i])) by {
            if i == 0 {
                assert(canon_seq(sel).contains(c0));
            } else {
                assert(ks.drop_first()[i - 1] == ks[i]);
                let c = canon(ks[i]);
                if seen2.contains(c) {
                    let j = choose|j: int| 0 <= j < seen2.len() && seen2[j] == c;
                    if j < seen.len() {
                        assert(seen[j] == c);
                    } else {
                        assert(c == c0);
                        assert(canon_seq(sel).contains(c));
                    }
                } else {
                    assert(canon_seq(sel2).contains(c));
                    let j = choose|j: int| 0 <= j < canon_seq(sel2).len() && canon_seq(sel2)[j] == c;
                    assert(canon_seq(sel)[j + 1] == canon(sel[j + 1]));
                    assert(sel[j + 1] == sel2[j]);
                    assert(canon_seq(sel).contains(c));
                }
            }
        }
    }
}

/// When every input key's canonical form has already been seen, nothing is
/// kept.
pub proof fn lemma_select_new_exhausted(ks: Seq<Seq<char>>, seen: Seq<Seq<char>>)
    requires
        forall|i: int| 0 <= i < ks.len() ==> seen.contains(canon(#[trigger] ks[i])),
    ensures
        select_new(ks, seen).len() == 0,
    decreases ks.len(),
{
    if ks.len() > 0 {
        assert(seen.contains(canon(ks[0])));
        assert(forall|i: int|
            0 <= i < ks.drop_first().len() ==> seen.contains(
                canon(#[trigger] ks.drop_first()[i]),
            ));
        lemma_select_new_exhausted(ks.drop_first(), seen);
    }
}

} // verus!
