//! What a fetch remembers of a remote, and what it says is there already.
use crate::fetch::{ids_in, recorded_refs, short, FetchedModel};
use crate::get_packfile_by_network::RefModel;
use crate::bytes::starts_with;
use crate::picking::{lemma_picked_none, lemma_picked_push, picked};
use crate::reference::sha1_in;
use crate::text::trim;
use vstd::prelude::*;
use vstd::utf8::encode_utf8;

verus! {

/// What is remembered of a reference: a branch as one of the remote, a tag as it is, and nothing of
/// all else, of `HEAD` and of a name that ends in `^{}`.
pub open spec fn kept_of(remote: Seq<char>, r: RefModel) -> Option<FetchedModel> {
    let name = r.name;
    let n = name.len();
    if name == "HEAD"@ || n >= 3 && name[n - 3] == '^' && name[n - 2] == '{' && name[n - 1] == '}' {
        None
    } else if starts_with(name, "refs/heads/"@) {
        Some(
            FetchedModel {
                remote_name: name,
                local_name: "refs/remotes/"@ + remote + "/"@ + name.subrange(11, n as int),
                sha: r.sha,
            },
        )
    } else if starts_with(name, "refs/tags/"@) {
        Some(FetchedModel { remote_name: name, local_name: name, sha: r.sha })
    } else {
        None
    }
}

/// What a fetch notes of a reference in `FETCH_HEAD`.
pub open spec fn note_of(remote: Seq<char>, url: Seq<char>, r: RefModel) -> Seq<char> {
    if kept_of(remote, r) is None {
        Seq::empty()
    } else if starts_with(r.name, "refs/heads/"@) {
        r.sha + "\t\t"@ + ("branch '"@ + r.name.subrange(11, r.name.len() as int) + "'"@) + " of "@
            + url + "\n"@
    } else {
        r.sha + "\t\t"@ + ("tag '"@ + r.name.subrange(10, r.name.len() as int) + "'"@) + " of "@ + url
            + "\n"@
    }
}

/// A fetch remembers every branch and every tag that the remote advertises, in order, and notes each
/// on a line of `FETCH_HEAD`.
pub proof fn law_fetch_remembers(remote: Seq<char>, url: Seq<char>, refs: Seq<RefModel>)
    ensures
        picked(
            recorded_refs(remote, url, refs).refs,
            Seq::new(refs.len(), |i: int| kept_of(remote, refs[i])),
        ),
        refs.len() == 0 ==> recorded_refs(remote, url, refs).fetch_head.len() == 0,
        refs.len() > 0 ==> recorded_refs(remote, url, refs).fetch_head == recorded_refs(
            remote,
            url,
            refs.drop_last(),
        ).fetch_head + note_of(remote, url, refs.last()),
    decreases refs.len(),
{
    let wanted = Seq::new(refs.len(), |i: int| kept_of(remote, refs[i]));
    if refs.len() == 0 {
        lemma_picked_none::<FetchedModel>();
        assert(wanted =~= Seq::empty());
    } else {
        let t = refs.drop_last();
        let r = refs.last();
        law_fetch_remembers(remote, url, t);
        let before = Seq::new(t.len(), |i: int| kept_of(remote, t[i]));
        let name = r.name;
        reveal_strlit("^{}");
        if name.len() >= 3 {
            let end = name.subrange(name.len() - 3, name.len() as int);
            assert(end[0] == name[name.len() - 3] && end[1] == name[name.len() - 2] && end[2]
                == name[name.len() - 1]);
            if end[0] == '^' && end[1] == '{' && end[2] == '}' {
                assert(end =~= "^{}"@);
            }
        }
        lemma_picked_push(recorded_refs(remote, url, t).refs, before, kept_of(remote, r));
        assert(wanted =~= before.push(kept_of(remote, r)));
        let head = recorded_refs(remote, url, t).fetch_head;
        assert(head + Seq::<char>::empty() =~= head);
    }
}

/// What is said to be there already are the ids that reference files hold, each once.
pub proof fn law_haves_told(contents: Seq<Seq<char>>)
    ensures
        ids_in(contents).no_duplicates(),
        forall|s: Seq<char>| #[trigger]
            ids_in(contents).contains(s) <==> sha1_in(s) is Some && exists|i: int|
                0 <= i < contents.len() && trim(#[trigger] contents[i]) == s,
    decreases contents.len(),
{
    if contents.len() > 0 {
        let t = contents.drop_last();
        law_haves_told(t);
        let before = ids_in(t);
        let all = ids_in(contents);
        let l = trim(contents.last());
        assert forall|s: Seq<char>| #[trigger]
            all.contains(s) <==> sha1_in(s) is Some && exists|i: int|
                0 <= i < contents.len() && trim(#[trigger] contents[i]) == s by {
            if all.contains(s) {
                let k = choose|k: int| 0 <= k < all.len() && all[k] == s;
                if k < before.len() {
                    assert(before[k] == s);
                    assert(before.contains(s));
                    let i = choose|i: int| 0 <= i < t.len() && trim(#[trigger] t[i]) == s;
                    assert(contents[i] == t[i]);
                } else {
                    assert(contents[contents.len() - 1] == contents.last());
                }
            }
            if sha1_in(s) is Some && exists|i: int|
                0 <= i < contents.len() && trim(#[trigger] contents[i]) == s {
                let i = choose|i: int|
                    0 <= i < contents.len() && trim(#[trigger] contents[i]) == s;
                if i < t.len() {
                    assert(t[i] == contents[i]);
                    assert(before.contains(s));
                    let k = choose|k: int| 0 <= k < before.len() && before[k] == s;
                    assert(all[k] == s);
                } else if before.contains(s) {
                    let k = choose|k: int| 0 <= k < before.len() && before[k] == s;
                    assert(all[k] == s);
                } else {
                    assert(all[before.len() as int] == s);
                }
            }
        }
    }
}

/// A shortened id is the longest beginning of it that takes up at most seven bytes.
pub proof fn law_short(s: Seq<char>)
    ensures
        short(s).len() <= s.len(),
        short(s) == s.subrange(0, short(s).len() as int),
        encode_utf8(short(s)).len() <= 7 || short(s).len() == 0,
        forall|n: int|
            short(s).len() < n <= s.len() ==> encode_utf8(#[trigger] s.subrange(0, n)).len() > 7,
    decreases s.len(),
{
    if encode_utf8(s).len() <= 7 || s.len() == 0 {
        assert(s.subrange(0, s.len() as int) =~= s);
    } else {
        let t = s.drop_last();
        law_short(t);
        assert(t.subrange(0, short(s).len() as int) =~= s.subrange(0, short(s).len() as int));
        assert forall|n: int| short(s).len() < n <= s.len() implies encode_utf8(
            #[trigger] s.subrange(0, n),
        ).len() > 7 by {
            if n < s.len() {
                assert(t.subrange(0, n) =~= s.subrange(0, n));
            } else {
                assert(s.subrange(0, n) =~= s);
            }
        }
    }
}

} // verus!
