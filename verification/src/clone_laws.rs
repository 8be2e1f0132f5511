//! Which commit a clone shows, and which tree that commit has.
use crate::bytes::{lemma_find_from_is, starts_with};
use crate::clone_plan::{
    cloned_items, hex_pair, items_of_tree, sha_in_hex, tree_of_commit, CloneError, ItemModel,
};
use crate::get_packfile_by_network::{id_of_ref, AdvertModel};
use crate::numbers::{hex_of, hex_value};
use crate::parse_packfile::{find_id, Kind, PackedModel};
use crate::text::{
    is_space, lemma_encode_ascii, lemma_text_round_trip, lemma_trim_solid, lines, strip_cr,
};
use vstd::prelude::*;
use vstd::utf8::encode_utf8;

verus! {

/// An id is read from its hexadecimal digits.
pub proof fn law_id_in_hex(id: Seq<u8>)
    requires
        id.len() == 20,
    ensures
        sha_in_hex(hex_of(id)) == Ok::<Seq<u8>, CloneError>(id),
{
    let h = hex_of(id);
    assert forall|i: int| 0 <= i < h.len() implies (#[trigger] h[i] as u32) < 0x80 && hex_value(
        h[i],
    ) == Some(
        if i % 2 == 0 {
            id[i / 2] as int / 16
        } else {
            id[i / 2] as int % 16
        },
    ) by {
        let x = id[i / 2] as int;
        assert(0 <= x / 16 < 16);
        assert(0 <= x % 16 < 16);
    }
    assert(vstd::utf8::is_ascii_chars(h));
    lemma_encode_ascii(h);
    let b = encode_utf8(h);
    assert(b.len() == 40);
    assert forall|i: int| 0 <= i < 20 implies #[trigger] hex_pair(b[2 * i], b[2 * i + 1]) == Some(
        id[i] as int,
    ) by {
        assert(b[2 * i] as char == h[2 * i]);
        assert(b[2 * i + 1] as char == h[2 * i + 1]);
        assert((2 * i) % 2 == 0 && (2 * i) / 2 == i);
        assert((2 * i + 1) % 2 == 1 && (2 * i + 1) / 2 == i);
        let x = id[i] as int;
        assert((x / 16) * 16 + x % 16 == x);
    }
    assert(sha_in_hex(h)->Ok_0 =~= id);
}

/// The tree of a commit is the one that its first line names.
pub proof fn law_commit_tree_read(hex: Seq<char>, rest: Seq<char>)
    requires
        hex.len() > 0,
        forall|i: int| 0 <= i < hex.len() ==> !is_space(#[trigger] hex[i]),
    ensures
        tree_of_commit(encode_utf8("tree "@ + hex + "\n"@ + rest)) == sha_in_hex(hex),
{
    reveal_strlit("tree ");
    reveal_strlit("\n");
    let first = "tree "@ + hex;
    let text = first + "\n"@ + rest;
    lemma_text_round_trip(text);
    let n = first.len() as int;
    assert forall|i: int| 0 <= i < n implies text[i] != '\n' by {
        if i >= 5 {
            assert(text[i] == hex[i - 5]);
            assert(!is_space(hex[i - 5]));
        } else {
            assert(text[i] == "tree "@[i]);
        }
    }
    assert(text[n] == '\n');
    lemma_find_from_is(text, '\n', 0, n);
    assert(text.subrange(0, n) =~= first);
    assert(first.last() == hex[hex.len() - 1]);
    assert(!is_space(hex[hex.len() - 1]));
    assert(strip_cr(first) == first);
    let ls = lines(text);
    assert(ls[0] == first);
    assert(first.subrange(0, 5) =~= "tree "@);
    assert(starts_with(first, "tree "@));
    assert(first.subrange(5, n) =~= hex);
    assert(!is_space(hex[0]));
    lemma_trim_solid(hex);
}

/// A clone shows the tree of the commit that the default branch is advertised at: the last object
/// with its id. Without such a branch it shows nothing.
pub proof fn law_clone_shows(
    objs: Seq<PackedModel>,
    adv: AdvertModel,
    id: Seq<u8>,
    k: int,
    tree: Seq<u8>,
    rest: Seq<char>,
)
    requires
        id.len() == 20,
        tree.len() == 20,
        0 <= k < objs.len(),
        objs[k].sha@ == id,
        forall|i: int| k < i < objs.len() ==> (#[trigger] objs[i]).sha@ != id,
        objs[k].kind == Kind::Commit,
        objs[k].data == encode_utf8("tree "@ + hex_of(tree) + "\n"@ + rest),
    ensures
        (adv.head_target matches Some(t) && id_of_ref(adv.refs, t) == Some(hex_of(id)))
            ==> cloned_items(objs, adv) == items_of_tree(objs, tree, Seq::empty(), objs.len()),
        (adv.head_target is None || id_of_ref(adv.refs, adv.head_target->0) is None)
            ==> cloned_items(objs, adv) == Ok::<Seq<ItemModel>, CloneError>(Seq::empty()),
{
    law_id_in_hex(id);
    law_id_in_hex(tree);
    let h = hex_of(tree);
    assert forall|i: int| 0 <= i < h.len() implies !is_space(#[trigger] h[i]) by {
        let x = tree[i / 2] as int;
        assert(0 <= x / 16 < 16);
        assert(0 <= x % 16 < 16);
    }
    law_commit_tree_read(h, rest);
    lemma_found_last(objs, id, k, objs.len() as int);
}

proof fn lemma_found_last(objs: Seq<PackedModel>, id: Seq<u8>, k: int, upto: int)
    requires
        0 <= k < upto <= objs.len(),
        objs[k].sha@ == id,
        forall|i: int| k < i < upto ==> (#[trigger] objs[i]).sha@ != id,
    ensures
        find_id(objs, id, upto) == k,
    decreases upto,
{
    if upto - 1 > k {
        assert(objs[upto - 1].sha@ != id);
        lemma_found_last(objs, id, k, upto - 1);
    }
}

} // verus!
