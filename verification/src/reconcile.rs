//! Reconciliation of fetched keys against an `authorized_keys` file.
//!
//! The target file is only ever appended to. Given the file's current
//! content and a list of fetched key lines, the genuinely new keys are those
//! whose canonical (type, blob) form appears neither in the file nor earlier
//! in the fetched list. When there is something to write and the caller is
//! not doing a dry run, the block to append joins the new keys with
//! newlines, ends with a single newline, and is preceded by one extra
//! newline only when the existing content does not already end with one.

use crate::keys::canon;
use crate::keys::canon_seq;
use crate::keys::clean_keys;
use crate::keys::filter_keys;
use crate::keys::is_supported_key;
use crate::keys::keys_of;
use crate::keys::lemma_lines_keys_add;
use crate::keys::lemma_lines_keys_single;
use crate::keys::lemma_select_new_covers;
use crate::keys::lemma_select_new_exhausted;
use crate::keys::lemma_select_new_props;
use crate::keys::lemma_split_lines_concat;
use crate::keys::lemma_split_lines_whole;
use crate::keys::lemma_supported_nonempty;
use crate::keys::lines_keys;
use crate::keys::select_new;
use crate::keys::split_lines;
use crate::keys::trimmed;
use crate::keys::split_keys;
use crate::keys::views;
use vstd::prelude::*;
use vstd::string::*;

verus! {

/// One extra newline when the existing content is nonempty and does not
/// already end with one, so that the appended block starts on a fresh line.
pub open spec fn pad(content: Seq<char>) -> Seq<char> {
    if content.len() > 0 && content.last() != '\n' {
        seq!['\n']
    } else {
        Seq::empty()
    }
}

/// The block appended for the new keys: each key followed by a newline.
pub open spec fn block_of(ks: Seq<Seq<char>>) -> Seq<char>
    decreases ks.len(),
{
    if ks.len() == 0 {
        Seq::empty()
    } else {
        ks[0] + seq!['\n'] + block_of(ks.drop_first())
    }
}

pub proof fn lemma_block_push(ks: Seq<Seq<char>>, k: Seq<char>)
    ensures
        block_of(ks.push(k)) == block_of(ks) + k + seq!['\n'],
    decreases ks.len(),
{
    if ks.len() == 0 {
        assert(ks.push(k)[0] == k);
        assert(ks.push(k).drop_first() =~= Seq::<Seq<char>>::empty());
        assert(block_of(Seq::<Seq<char>>::empty()) == Seq::<char>::empty());
        assert(block_of(ks.push(k)) == k + seq!['\n'] + Seq::<char>::empty());
        assert(block_of(ks.push(k)) =~= block_of(ks) + k + seq!['\n']);
    } else {
        assert(ks.push(k)[0] == ks[0]);
        assert(ks.push(k).drop_first() =~= ks.drop_first().push(k));
        lemma_block_push(ks.drop_first(), k);
        assert(ks[0] + seq!['\n'] + (block_of(ks.drop_first()) + k + seq!['\n']) =~= (ks[0]
            + seq!['\n'] + block_of(ks.drop_first())) + k + seq!['\n']);
    }
}

/// The handle of an `authorized_keys` file: the path the file lives at.
/// Creating, reading and appending to the file itself is I/O and is done by
/// the unverified front end; the content it reads and writes is computed
/// here.
pub struct AuthorizedKeys {
    path: String,
}

impl AuthorizedKeys {
    /// The path this handle points at.
    pub closed spec fn path_spec(&self) -> Seq<char> {
        self.path@
    }

    /// A handle at an explicit path.
    pub fn at_path(path: &str) -> (r: AuthorizedKeys)
        ensures
            r.path_spec() == path@,
    {
        AuthorizedKeys { path: path.to_owned() }
    }

    /// The handle for a named local user, under the fixed `/home/{user}`
    /// convention.
    pub fn for_user(user: &str) -> (r: AuthorizedKeys)
        ensures
            r.path_spec() == "/home/"@ + user@ + "/.ssh/authorized_keys"@,
    {
        let p = String::from_str("/home/").concat(user).concat("/.ssh/authorized_keys");
        AuthorizedKeys { path: p }
    }

    /// The handle under an explicit home directory, for the current user.
    pub fn at_home(home: &str) -> (r: AuthorizedKeys)
        ensures
            r.path_spec() == home@ + "/.ssh/authorized_keys"@,
    {
        let p = String::from_str(home).concat("/.ssh/authorized_keys");
        AuthorizedKeys { path: p }
    }

    /// The path as a string slice.
    pub fn path(&self) -> (r: &str)
        ensures
            r@ == self.path_spec(),
    {
        self.path.as_str()
    }
}

/// The canonical keys held in a file content, and whether the content ends
/// with a newline.
pub fn read_keys(content: &str) -> (r: (Vec<String>, bool))
    ensures
        views(r.0@) == canon_seq(keys_of(content@)),
        r.1 == (content@.len() > 0 && content@.last() == '\n'),
{
    let ks = split_keys(content);
    let cleaned = clean_keys(ks);
    let n = content.unicode_len();
    let ends = n > 0 && content.get_char(n - 1) == '\n';
    (cleaned, ends)
}

/// The genuinely new keys of `keys` against the file content `content`.
pub open spec fn new_keys(content: Seq<char>, keys: Seq<Seq<char>>) -> Seq<Seq<char>> {
    select_new(keys, canon_seq(keys_of(content)))
}

/// Computes the reconciliation of `keys` against a file whose current
/// content is `content`. Returns the number of genuinely new keys and, when
/// there are any and `dry_run` is false, the exact block to append to the
/// file; in a dry run, or when nothing is new, the file is to be left
/// untouched.
pub fn reconcile(content: &str, keys: Vec<String>, dry_run: bool) -> (r: (usize, Option<String>))
    ensures
        r.0 == new_keys(content@, views(keys@)).len(),
        (r.1 is None) == (dry_run || new_keys(content@, views(keys@)).len() == 0),
        r.1 matches Some(a) ==> a@ == pad(content@) + block_of(new_keys(content@, views(keys@))),
{
    let existing = split_keys(content);
    let new = filter_keys(keys, existing);
    let count = new.len();
    if dry_run || count == 0 {
        return (count, None);
    }
    let ghost nk = new_keys(content@, views(keys@));
    let n = content.unicode_len();
    let mut out = String::new();
    if n > 0 && content.get_char(n - 1) != '\n' {
        out.append("\n");
    }
    proof {
        reveal_strlit("\n");
        assert("\n"@ =~= seq!['\n']);
        assert(out@ =~= pad(content@));
    }
    let mut i: usize = 0;
    while i < new.len()
        invariant
            i <= new@.len(),
            views(new@) == nk,
            out@ =~= pad(content@) + block_of(nk.subrange(0, i as int)),
        decreases new@.len() - i,
    {
        out.append(new[i].as_str());
        out.append("\n");
        proof {
            reveal_strlit("\n");
            assert("\n"@ =~= seq!['\n']);
            lemma_block_push(nk.subrange(0, i as int), nk[i as int]);
            assert(nk.subrange(0, i as int).push(nk[i as int]) =~= nk.subrange(0, i + 1));
        }
        i += 1;
    }
    proof {
        assert(nk.subrange(0, nk.len() as int) =~= nk);
    }
    (count, Some(out))
}


/// A well-formed key line: it carries a supported key type, holds no
/// newline, and has no surrounding whitespace. The lines produced by the key
/// parser are of this shape.
pub open spec fn wf_key(k: Seq<char>) -> bool {
    &&& is_supported_key(k)
    &&& trimmed(k) == k
    &&& forall|i: int| 0 <= i < k.len() ==> k[i] != '\n'
}

proof fn lemma_keys_of_append_key(base: Seq<char>, k: Seq<char>)
    requires
        base.len() == 0 || base.last() == '\n',
        forall|i: int| 0 <= i < k.len() ==> k[i] != '\n',
    ensures
        keys_of(base + (k + seq!['\n'])) == keys_of(base) + (if is_supported_key(trimmed(k)) {
            seq![trimmed(k)]
        } else {
            Seq::<Seq<char>>::empty()
        }),
{
    let s = base + (k + seq!['\n']);
    let kept = if is_supported_key(trimmed(k)) {
        seq![trimmed(k)]
    } else {
        Seq::<Seq<char>>::empty()
    };
    assert(s =~= (base + k) + seq!['\n'] + Seq::<char>::empty());
    lemma_split_lines_concat(base + k, Seq::<char>::empty());
    assert(split_lines(Seq::<char>::empty()) == seq![Seq::<char>::empty()]);
    assert(split_lines(s) == split_lines(base + k) + seq![Seq::<char>::empty()]);
    assert(trimmed(Seq::<char>::empty()) == Seq::<char>::empty());
    assert(!is_supported_key(Seq::<char>::empty())) by {
        if is_supported_key(Seq::<char>::empty()) {
            lemma_supported_nonempty(Seq::<char>::empty());
        }
    }
    lemma_lines_keys_single(Seq::<char>::empty());
    lemma_lines_keys_single(k);
    if base.len() == 0 {
        assert(base + k =~= k);
        lemma_split_lines_whole(k);
        lemma_lines_keys_add(seq![k], seq![Seq::<char>::empty()]);
        assert(split_lines(s) =~= seq![k] + seq![Seq::<char>::empty()]);
        assert(keys_of(s) =~= kept);
        assert(keys_of(base) =~= Seq::<Seq<char>>::empty()) by {
            assert(split_lines(base) == seq![Seq::<char>::empty()]);
        }
    } else {
        let b0 = base.drop_last();
        assert(base =~= b0 + seq!['\n'] + Seq::<char>::empty());
        lemma_split_lines_concat(b0, Seq::<char>::empty());
        assert(split_lines(base) == split_lines(b0) + seq![Seq::<char>::empty()]);
        assert(base + k =~= b0 + seq!['\n'] + k);
        lemma_split_lines_concat(b0, k);
        lemma_split_lines_whole(k);
        assert(split_lines(base + k) == split_lines(b0) + seq![k]);
        lemma_lines_keys_add(split_lines(b0) + seq![k], seq![Seq::<char>::empty()]);
        lemma_lines_keys_add(split_lines(b0), seq![k]);
        lemma_lines_keys_add(split_lines(b0), seq![Seq::<char>::empty()]);
        assert(keys_of(s) =~= lines_keys(split_lines(b0)) + kept);
        assert(keys_of(base) =~= lines_keys(split_lines(b0)));
    }
}

proof fn lemma_append_block(base: Seq<char>, ks: Seq<Seq<char>>)
    requires
        base.len() == 0 || base.last() == '\n',
        forall|i: int| 0 <= i < ks.len() ==> wf_key(#[trigger] ks[i]),
    ensures
        keys_of(base + block_of(ks)) == keys_of(base) + ks,
    decreases ks.len(),
{
    if ks.len() == 0 {
        assert(base + block_of(ks) =~= base);
        assert(keys_of(base) + ks =~= keys_of(base));
    } else {
        let k = ks[0];
        assert(wf_key(ks[0]));
        let base2 = base + (k + seq!['\n']);
        lemma_keys_of_append_key(base, k);
        assert(keys_of(base2) == keys_of(base) + seq![k]);
        assert(base2.last() == '\n');
        assert(forall|i: int|
            0 <= i < ks.drop_first().len() ==> wf_key(#[trigger] ks.drop_first()[i]));
        lemma_append_block(base2, ks.drop_first());
        assert(base + block_of(ks) =~= base2 + block_of(ks.drop_first()));
        assert((keys_of(base) + seq![k]) + ks.drop_first() =~= keys_of(base) + ks);
    }
}

proof fn lemma_pad_content(content: Seq<char>)
    ensures
        keys_of(content + pad(content)) == keys_of(content),
        (content + pad(content)).len() == 0 || (content + pad(content)).last() == '\n',
{
    let base = content + pad(content);
    if content.len() > 0 && content.last() != '\n' {
        assert(base =~= content + seq!['\n'] + Seq::<char>::empty());
        lemma_split_lines_concat(content, Seq::<char>::empty());
        assert(split_lines(base) == split_lines(content) + seq![Seq::<char>::empty()]);
        assert(trimmed(Seq::<char>::empty()) == Seq::<char>::empty());
        assert(!is_supported_key(Seq::<char>::empty())) by {
            if is_supported_key(Seq::<char>::empty()) {
                lemma_supported_nonempty(Seq::<char>::empty());
            }
        }
        lemma_lines_keys_single(Seq::<char>::empty());
        lemma_lines_keys_add(split_lines(content), seq![Seq::<char>::empty()]);
        assert(keys_of(base) =~= keys_of(content));
    } else {
        assert(base =~= content);
    }
}

proof fn lemma_block_tail(ks: Seq<Seq<char>>)
    requires
        ks.len() > 0,
        forall|i: int| 0 <= i < ks.len() ==> wf_key(#[trigger] ks[i]),
    ensures
        block_of(ks).len() >= 2,
        block_of(ks).last() == '\n',
        block_of(ks)[block_of(ks).len() - 2] != '\n',
    decreases ks.len(),
{
    let b = block_of(ks);
    assert(wf_key(ks[0]));
    lemma_supported_nonempty(ks[0]);
    if ks.len() == 1 {
        assert(ks.drop_first() =~= Seq::<Seq<char>>::empty());
        assert(block_of(Seq::<Seq<char>>::empty()) == Seq::<char>::empty());
        assert(b =~= ks[0] + seq!['\n']);
        assert(b[b.len() - 2] == ks[0].last());
    } else {
        lemma_block_tail(ks.drop_first());
        let rest = block_of(ks.drop_first());
        assert(b == ks[0] + seq!['\n'] + rest);
        assert(b.last() == rest.last());
        assert(b[b.len() - 2] == rest[rest.len() - 2]);
    }
}

/// Round trip: appending the reconciliation block to the file re-reads as
/// exactly the original keys followed by the new ones; no new key's
/// canonical form was already present, no two new keys share one, and when
/// anything was appended the file ends with a single trailing newline.
pub proof fn lemma_reconcile_round_trip(content: Seq<char>, ks: Seq<Seq<char>>)
    requires
        forall|i: int| 0 <= i < ks.len() ==> wf_key(#[trigger] ks[i]),
    ensures
        ({
            let fresh = new_keys(content, ks);
            let after = content + pad(content) + block_of(fresh);
            &&& keys_of(after) == keys_of(content) + fresh
            &&& forall|i: int|
                0 <= i < fresh.len() ==> !canon_seq(keys_of(content)).contains(
                    canon(#[trigger] fresh[i]),
                )
            &&& forall|i: int, j: int|
                0 <= i < j < fresh.len() ==> canon(fresh[i]) != canon(fresh[j])
            &&& fresh.len() > 0 ==> after.len() >= 2 && after.last() == '\n' && after[after.len()
                - 2] != '\n'
        }),
{
    let seen = canon_seq(keys_of(content));
    let fresh = new_keys(content, ks);
    let after = content + pad(content) + block_of(fresh);
    lemma_select_new_props(ks, seen);
    assert forall|i: int| 0 <= i < fresh.len() implies wf_key(#[trigger] fresh[i]) by {
        assert(ks.contains(fresh[i]));
        let j = choose|j: int| 0 <= j < ks.len() && ks[j] == fresh[i];
        assert(wf_key(ks[j]));
    }
    let base = content + pad(content);
    lemma_pad_content(content);
    lemma_append_block(base, fresh);
    assert(after =~= base + block_of(fresh));
    if fresh.len() > 0 {
        lemma_block_tail(fresh);
        let b = block_of(fresh);
        assert(after.last() == b.last());
        assert(after[after.len() - 2] == b[b.len() - 2]);
    }
}

/// Reconciliation is idempotent: against the content that results from one
/// reconciliation, the same fetched keys yield nothing new.
pub proof fn lemma_reconcile_idempotent(content: Seq<char>, ks: Seq<Seq<char>>)
    requires
        forall|i: int| 0 <= i < ks.len() ==> wf_key(#[trigger] ks[i]),
    ensures
        ({
            let fresh = new_keys(content, ks);
            let after = content + pad(content) + block_of(fresh);
            new_keys(after, ks).len() == 0
        }),
{
    let seen = canon_seq(keys_of(content));
    let fresh = new_keys(content, ks);
    let after = content + pad(content) + block_of(fresh);
    lemma_reconcile_round_trip(content, ks);
    assert(keys_of(after) == keys_of(content) + fresh);
    let seen2 = canon_seq(keys_of(after));
    assert(seen2 =~= seen + canon_seq(fresh));
    lemma_select_new_covers(ks, seen);
    assert forall|i: int| 0 <= i < ks.len() implies seen2.contains(canon(#[trigger] ks[i])) by {
        let c = canon(ks[i]);
        if seen.contains(c) {
            let j = choose|j: int| 0 <= j < seen.len() && seen[j] == c;
            assert(seen2[j] == c);
        } else {
            assert(canon_seq(fresh).contains(c));
            let j = choose|j: int| 0 <= j < canon_seq(fresh).len() && canon_seq(fresh)[j] == c;
            assert(seen2[seen.len() + j] == c);
        }
    }
    lemma_select_new_exhausted(ks, seen2);
}

} // verus!
