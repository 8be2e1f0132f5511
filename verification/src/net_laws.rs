//! What is understood of a remote: every reference it advertises, every byte of its packs, and what
//! it reports.
use crate::bytes::{find_from, lemma_find_from_is, starts_with};
use crate::deal_pktlines::{fits, law_pkt_round_trip, pkt_at, pkt_bytes, pkt_rest, PktModel};
use crate::get_packfile_by_network::{
    caps_in, caps_text, channel_one, channel_two, complaint, default_branch, heeded, id_of_ref,
    known_caps, lists_cap, non_empty, pack_response, past_http_header, ref_in, ref_part, refs_in,
    request_lines, run_in, wants, AdvertModel, NetErrorModel, RefModel,
};
use crate::picking::{lemma_picked_none, lemma_picked_push, picked};
use crate::push::{command, push_body, refusal, report_of};
use crate::text::{lossy_text, split, trim_end};
use vstd::prelude::*;
use vstd::utf8::encode_utf8;

verus! {

/// The references of an advertisement are those that its lines name, in order: all but lines without
/// a name and the placeholder of an empty repository.
pub proof fn law_refs_told(payloads: Seq<Seq<u8>>, n: int)
    requires
        0 <= n <= payloads.len(),
    ensures
        picked(
            refs_in(payloads, n),
            Seq::new(
                n as nat,
                |i: int|
                    {
                        let r = ref_in(ref_part(payloads[i], i == 0));
                        if r.name.len() == 0 || r.name == "capabilities^{}"@ {
                            None
                        } else {
                            Some(r)
                        }
                    },
            ),
        ),
    decreases n,
{
    let wanted = Seq::new(
        n as nat,
        |i: int|
            {
                let r = ref_in(ref_part(payloads[i], i == 0));
                if r.name.len() == 0 || r.name == "capabilities^{}"@ {
                    None
                } else {
                    Some(r)
                }
            },
    );
    if n == 0 {
        lemma_picked_none::<RefModel>();
        assert(wanted =~= Seq::empty());
    } else {
        law_refs_told(payloads, n - 1);
        let before = Seq::new(
            (n - 1) as nat,
            |i: int|
                {
                    let r = ref_in(ref_part(payloads[i], i == 0));
                    if r.name.len() == 0 || r.name == "capabilities^{}"@ {
                        None
                    } else {
                        Some(r)
                    }
                },
        );
        lemma_picked_push(refs_in(payloads, n - 1), before, wanted.last());
        assert(wanted =~= before.push(wanted.last()));
    }
}

/// A line of an advertisement gives the id before its first space and the name behind it. A line
/// feed at its end does not belong to it, and what follows a NUL on the first line are capabilities.
pub proof fn law_ref_line(
    id: Seq<char>,
    name: Seq<char>,
    line: Seq<u8>,
    after: Seq<u8>,
    first: bool,
)
    requires
        lossy_text(line) == id + seq![' '] + name,
        !id.contains(' '),
        !line.contains(0),
        line.len() > 0 && line.last() != 0x0a,
        after.len() > 0 ==> after[0] == 0 && after.last() != 0x0a && first,
    ensures
        ref_in(ref_part(line + after, first)) == (RefModel { sha: id, name }),
        ref_in(ref_part((line + after).push(0x0a), first)) == (RefModel { sha: id, name }),
{
    let t = lossy_text(line);
    assert(t[id.len() as int] == ' ');
    assert forall|i: int| 0 <= i < id.len() implies t[i] != ' ' by {
        assert(t[i] == id[i]);
        assert(id.contains(id[i]));
    }
    lemma_find_from_is(t, ' ', 0, id.len() as int);
    assert(t.subrange(0, id.len() as int) =~= id);
    assert(t.subrange(id.len() + 1int, t.len() as int) =~= name);
    let p = line + after;
    assert(p.push(0x0a).drop_last() =~= p);
    assert(p.last() != 0x0a) by {
        if after.len() > 0 {
            assert(p.last() == after.last());
        } else {
            assert(p.last() == line.last());
        }
    }
    assert forall|i: int| 0 <= i < line.len() implies p[i] != 0 by {
        assert(p[i] == line[i]);
        assert(line.contains(line[i]));
    }
    if after.len() > 0 {
        assert(p[line.len() as int] == after[0]);
    }
    lemma_find_from_is(p, 0u8, 0, line.len() as int);
    assert(p.subrange(0, line.len() as int) =~= line);
    if after.len() == 0 {
        assert(p =~= line);
    }
}

/// The capabilities are the words between spaces behind the NUL of the first line, in order.
pub proof fn law_caps_told(parts: Seq<Seq<char>>)
    ensures
        picked(
            non_empty(parts),
            Seq::new(
                parts.len(),
                |i: int|
                    if parts[i].len() == 0 {
                        None
                    } else {
                        Some(parts[i])
                    },
            ),
        ),
    decreases parts.len(),
{
    let wanted = Seq::new(
        parts.len(),
        |i: int|
            if parts[i].len() == 0 {
                None
            } else {
                Some(parts[i])
            },
    );
    if parts.len() == 0 {
        lemma_picked_none::<Seq<char>>();
        assert(wanted =~= Seq::empty());
    } else {
        let t = parts.drop_last();
        law_caps_told(t);
        let before = Seq::new(
            t.len(),
            |i: int|
                if t[i].len() == 0 {
                    None
                } else {
                    Some(t[i])
                },
        );
        lemma_picked_push(non_empty(t), before, wanted.last());
        assert(wanted =~= before.push(wanted.last()));
    }
}

/// The capabilities of a first line are found behind its NUL.
pub proof fn law_caps_line(line: Seq<u8>, caps: Seq<u8>)
    requires
        !line.contains(0),
        caps.len() == 0 || caps.last() != 0x0a,
    ensures
        caps_in(line.push(0) + caps) == non_empty(split(lossy_text(caps), ' ')),
        caps_in((line.push(0) + caps).push(0x0a)) == non_empty(split(lossy_text(caps), ' ')),
{
    let p = line.push(0) + caps;
    assert(p.push(0x0a).drop_last() =~= p);
    assert(p.last() != 0x0a) by {
        if caps.len() > 0 {
            assert(p.last() == caps.last());
        } else {
            assert(p.last() == 0);
        }
    }
    assert forall|i: int| 0 <= i < line.len() implies p[i] != 0 by {
        assert(p[i] == line[i]);
        assert(line.contains(line[i]));
    }
    assert(p[line.len() as int] == 0);
    lemma_find_from_is(p, 0u8, 0, line.len() as int);
    assert(p.subrange(line.len() + 1int, p.len() as int) =~= caps);
}

/// The default branch is what the first capability of the form `symref=HEAD:<name>` names.
pub proof fn law_default_branch(caps: Seq<Seq<char>>, k: int, name: Seq<char>)
    requires
        0 <= k < caps.len(),
        caps[k] == "symref=HEAD:"@ + name,
        forall|i: int| 0 <= i < k ==> !starts_with(#[trigger] caps[i], "symref=HEAD:"@),
    ensures
        default_branch(caps) == Some(name),
    decreases k,
{
    reveal_strlit("symref=HEAD:");
    let c = caps[k];
    assert(c.subrange(0, 12) =~= "symref=HEAD:"@);
    assert(c.subrange(12, c.len() as int) =~= name);
    if k > 0 {
        let t = caps.drop_first();
        assert(!starts_with(caps[0], "symref=HEAD:"@));
        assert forall|i: int| 0 <= i < k - 1 implies !starts_with(
            #[trigger] t[i],
            "symref=HEAD:"@,
        ) by {
            assert(t[i] == caps[i + 1]);
        }
        law_default_branch(t, k - 1, name);
    }
}

/// No default branch is found where no capability names one.
pub proof fn law_no_default_branch(caps: Seq<Seq<char>>)
    requires
        forall|i: int| 0 <= i < caps.len() ==> !starts_with(#[trigger] caps[i], "symref=HEAD:"@),
    ensures
        default_branch(caps) is None,
    decreases caps.len(),
{
    if caps.len() > 0 {
        let t = caps.drop_first();
        assert(!starts_with(caps[0], "symref=HEAD:"@));
        assert forall|i: int| 0 <= i < t.len() implies !starts_with(
            #[trigger] t[i],
            "symref=HEAD:"@,
        ) by {
            assert(t[i] == caps[i + 1]);
        }
        law_no_default_branch(t);
    }
}

/// The id of a reference is that of the first with its name; there is none where none has it.
pub proof fn law_id_of_ref(refs: Seq<RefModel>, name: Seq<char>, k: int)
    requires
        0 <= k <= refs.len(),
        forall|i: int| 0 <= i < k ==> (#[trigger] refs[i]).name != name,
        k < refs.len() ==> refs[k].name == name,
    ensures
        id_of_ref(refs, name) == if k < refs.len() {
            Some(refs[k].sha)
        } else {
            None
        },
    decreases k,
{
    if k > 0 {
        assert(refs[0].name != name);
        let t = refs.drop_first();
        assert forall|i: int| 0 <= i < k - 1 implies (#[trigger] t[i]).name != name by {
            assert(t[i] == refs[i + 1]);
        }
        law_id_of_ref(t, name, k - 1);
    }
}

/// What comes on the two channels of a response is put together in order: of each line on a channel,
/// all that stands behind the number of the channel.
pub proof fn law_channels(payloads: Seq<Seq<u8>>, n: int)
    requires
        0 < n <= payloads.len(),
    ensures
        ({
            let p = payloads[n - 1];
            &&& channel_one(payloads, 0) == Seq::<u8>::empty()
            &&& channel_one(payloads, n) == channel_one(payloads, n - 1) + if p.len() > 0 && p[0]
                == 1 {
                p.drop_first()
            } else {
                Seq::empty()
            }
            &&& channel_two(payloads, 0) == Seq::<char>::empty()
            &&& channel_two(payloads, n) == channel_two(payloads, n - 1) + if p.len() > 0 && p[0]
                == 2 {
                lossy_text(p.drop_first())
            } else {
                Seq::empty()
            }
        }),
{
    let p = payloads[n - 1];
    if p.len() > 0 {
        assert(p.subrange(1, p.len() as int) =~= p.drop_first());
    }
    assert(channel_one(payloads, n - 1) + Seq::<u8>::empty() =~= channel_one(payloads, n - 1));
    assert(channel_two(payloads, n - 1) + Seq::<char>::empty() =~= channel_two(payloads, n - 1));
}

/// The first line on the third channel is the complaint of the remote, and what comes before it is
/// heeded; without such a line there is none, and all is heeded.
pub proof fn law_complaint(payloads: Seq<Seq<u8>>, k: int)
    requires
        0 <= k <= payloads.len(),
        forall|i: int| 0 <= i < k ==> (#[trigger] payloads[i]).len() == 0 || payloads[i][0] != 3,
        k < payloads.len() ==> payloads[k].len() > 0 && payloads[k][0] == 3,
    ensures
        complaint(payloads) == if k < payloads.len() {
            Some(lossy_text(payloads[k].drop_first()))
        } else {
            None
        },
        heeded(payloads) == k,
    decreases k,
{
    if payloads.len() > 0 && k == 0 {
        let p = payloads[0];
        assert(p.subrange(1, p.len() as int) =~= p.drop_first());
    } else if k > 0 {
        assert(payloads[0].len() == 0 || payloads[0][0] != 3);
        let t = payloads.drop_first();
        assert forall|i: int| 0 <= i < k - 1 implies (#[trigger] t[i]).len() == 0 || t[i][0] != 3 by {
            assert(t[i] == payloads[i + 1]);
        }
        law_complaint(t, k - 1);
    }
}

/// A response gives the complaint of the remote if there is one; else, where all its lines can be
/// read, what came on the first channel, if that is a pack.
pub proof fn law_response(s: Seq<u8>)
    ensures
        ({
            let run = run_in(s);
            let pack = channel_one(run.payloads, run.payloads.len() as int);
            let r = pack_response(s);
            &&& complaint(run.payloads) matches Some(msg) ==> r == Err::<Seq<u8>, NetErrorModel>(
                NetErrorModel::Remote(msg),
            )
            &&& complaint(run.payloads) is None ==> match run.end {
                Err(e) => r == Err::<Seq<u8>, NetErrorModel>(NetErrorModel::Pkt(e)),
                Ok(_) => if pack.len() >= 4 && pack[0] == 0x50 && pack[1] == 0x41 && pack[2] == 0x43
                    && pack[3] == 0x4b {
                    r == Ok::<Seq<u8>, NetErrorModel>(pack)
                } else {
                    r == Err::<Seq<u8>, NetErrorModel>(NetErrorModel::NotAPack)
                },
            }
        }),
{
    let run = run_in(s);
    let pack = channel_one(run.payloads, run.payloads.len() as int);
    reveal_strlit("PACK");
    let w = "PACK"@;
    assert(vstd::utf8::is_ascii_chars(w));
    crate::text::lemma_encode_ascii(w);
    let b = encode_utf8(w);
    assert(b.len() == 4 && b[0] == 0x50 && b[1] == 0x41 && b[2] == 0x43 && b[3] == 0x4b);
    if pack.len() >= 4 {
        let h = pack.subrange(0, 4);
        assert(h[0] == pack[0] && h[1] == pack[1] && h[2] == pack[2] && h[3] == pack[3]);
        if h[0] == 0x50 && h[1] == 0x41 && h[2] == 0x43 && h[3] == 0x4b {
            assert(h =~= b);
        }
    }
}

/// A run of lines is read up to its flush: the payloads of its lines with one, in order, and what
/// follows the flush is left.
pub proof fn law_run_read(lines: Seq<PktModel>, rest: Seq<u8>)
    requires
        forall|i: int|
            0 <= i < lines.len() ==> fits(#[trigger] lines[i]) && !(lines[i] is Flush),
    ensures
        ({
            let r = run_in(sent(lines) + pkt_bytes(PktModel::Flush) + rest);
            &&& r.end is Ok
            &&& r.rest == rest
            &&& picked(
                r.payloads,
                Seq::new(
                    lines.len(),
                    |i: int|
                        match lines[i] {
                            PktModel::Data(p) => Some(p),
                            _ => None,
                        },
                ),
            )
        }),
    decreases lines.len(),
{
    let wanted = Seq::new(
        lines.len(),
        |i: int|
            match lines[i] {
                PktModel::Data(p) => Some(p),
                _ => None,
            },
    );
    let flush = pkt_bytes(PktModel::Flush);
    let s = sent(lines) + flush + rest;
    if lines.len() == 0 {
        assert(s =~= flush + rest);
        law_pkt_round_trip(PktModel::Flush, rest);
        lemma_picked_none::<Seq<u8>>();
        assert(wanted =~= Seq::empty());
        assert(run_in(s).payloads =~= Seq::empty());
    } else {
        let l = lines[0];
        let t = lines.drop_first();
        assert forall|i: int| 0 <= i < t.len() implies fits(#[trigger] t[i]) && !(t[i] is Flush) by {
            assert(t[i] == lines[i + 1]);
        }
        law_run_read(t, rest);
        let u = sent(t) + flush + rest;
        assert(s =~= pkt_bytes(l) + u);
        law_pkt_round_trip(l, u);
        let n = pkt_bytes(l).len() as int;
        assert(s.subrange(n, s.len() as int) =~= u);
        let after = Seq::new(
            t.len(),
            |i: int|
                match t[i] {
                    PktModel::Data(p) => Some(p),
                    _ => None,
                },
        );
        assert(run_in(s).end is Ok && run_in(s).rest == rest);
        let one: Seq<Option<Seq<u8>>> = seq![wanted[0]];
        lemma_picked_none::<Seq<u8>>();
        lemma_picked_push(Seq::<Seq<u8>>::empty(), Seq::empty(), wanted[0]);
        let first: Seq<Seq<u8>> = match wanted[0] {
            Some(v) => Seq::<Seq<u8>>::empty().push(v),
            None => Seq::<Seq<u8>>::empty(),
        };
        assert(Seq::<Option<Seq<u8>>>::empty().push(wanted[0]) =~= one);
        crate::picking::lemma_picked_both(first, one, run_in(u).payloads, after);
        assert(wanted =~= one + after);
        assert(run_in(s).payloads =~= first + run_in(u).payloads);
    }
}

/// Lines as they are sent, one after another.
pub open spec fn sent(lines: Seq<PktModel>) -> Seq<u8>
    decreases lines.len(),
{
    if lines.len() == 0 {
        Seq::empty()
    } else {
        pkt_bytes(lines[0]) + sent(lines.drop_first())
    }
}

/// A response over HTTP is understood behind the line that names the service and its flush.
pub proof fn law_http_header(tail: Seq<u8>, rest: Seq<u8>)
    requires
        tail.len() + encode_utf8("# service="@).len() <= 65516,
    ensures
        past_http_header(
            pkt_bytes(PktModel::Data(encode_utf8("# service="@) + tail)) + (pkt_bytes(
                PktModel::Flush,
            ) + rest),
        ) == Ok::<Seq<u8>, NetErrorModel>(rest),
{
    let h = encode_utf8("# service="@);
    let p = h + tail;
    let t = pkt_bytes(PktModel::Flush) + rest;
    law_pkt_round_trip(PktModel::Data(p), t);
    law_pkt_round_trip(PktModel::Flush, rest);
    assert(p.subrange(0, h.len() as int) =~= h);
}

/// A request asks for each wanted id on a line of its own, the first with the capabilities; then,
/// behind a flush, it says of each id that is there that it is, and ends.
pub proof fn law_request_lines(adv: AdvertModel, haves: Seq<Seq<char>>)
    ensures
        ({
            let ids = wants(adv.refs);
            let caps = caps_text(adv.caps, 4);
            let lines = request_lines(adv, haves);
            &&& lines.len() == ids.len() + haves.len() + 2
            &&& forall|i: int|
                0 <= i < ids.len() ==> #[trigger] lines[i] == PktModel::Data(
                    encode_utf8(
                        if i == 0 && caps.len() > 0 {
                            "want "@ + ids[i] + seq![' '] + caps + seq!['\n']
                        } else {
                            "want "@ + ids[i] + seq!['\n']
                        },
                    ),
                )
            &&& lines[ids.len() as int] is Flush
            &&& forall|i: int|
                0 <= i < haves.len() ==> #[trigger] lines[ids.len() + 1 + i] == PktModel::Data(
                    encode_utf8("have "@ + haves[i] + seq!['\n']),
                )
            &&& lines.last() == PktModel::Data(encode_utf8("done\n"@))
        }),
{
}

/// Texts with spaces between them.
pub open spec fn spaced(parts: Seq<Seq<char>>) -> Seq<char>
    decreases parts.len(),
{
    if parts.len() == 0 {
        Seq::empty()
    } else if parts.len() == 1 {
        parts[0]
    } else {
        spaced(parts.drop_last()) + seq![' '] + parts.last()
    }
}

proof fn lemma_caps_asked(caps: Seq<Seq<char>>, n: int) -> (asked: Seq<Seq<char>>)
    requires
        0 <= n <= 4,
    ensures
        caps_text(caps, n) == spaced(asked),
        picked(
            asked,
            Seq::new(
                n as nat,
                |i: int|
                    if lists_cap(caps, known_caps()[i]) {
                        Some(known_caps()[i])
                    } else {
                        None
                    },
            ),
        ),
        forall|i: int| 0 <= i < asked.len() ==> (#[trigger] asked[i]).len() > 0,
    decreases n,
{
    let wanted = Seq::new(
        n as nat,
        |i: int|
            if lists_cap(caps, known_caps()[i]) {
                Some(known_caps()[i])
            } else {
                None
            },
    );
    reveal_strlit("side-band-64k");
    reveal_strlit("thin-pack");
    reveal_strlit("ofs-delta");
    reveal_strlit("multi_ack_detailed");
    if n == 0 {
        lemma_picked_none::<Seq<char>>();
        assert(wanted =~= Seq::empty());
        Seq::empty()
    } else {
        let before = lemma_caps_asked(caps, n - 1);
        let wanted_before = Seq::new(
            (n - 1) as nat,
            |i: int|
                if lists_cap(caps, known_caps()[i]) {
                    Some(known_caps()[i])
                } else {
                    None
                },
        );
        lemma_picked_push(before, wanted_before, wanted.last());
        assert(wanted =~= wanted_before.push(wanted.last()));
        if lists_cap(caps, known_caps()[n - 1]) {
            let asked = before.push(known_caps()[n - 1]);
            assert(asked.drop_last() =~= before);
            assert(known_caps()[n - 1].len() > 0);
            assert(spaced(before).len() == 0 <==> before.len() == 0) by {
                if before.len() > 0 {
                    assert(before.last().len() > 0);
                    assert(before[0].len() > 0);
                }
            }
            asked
        } else {
            before
        }
    }
}

/// Of the capabilities `side-band-64k`, `thin-pack`, `ofs-delta` and `multi_ack_detailed` just those
/// are asked for that the remote lists, in this order, with spaces between them.
pub proof fn law_caps_asked(caps: Seq<Seq<char>>)
    ensures
        exists|asked: Seq<Seq<char>>|
            caps_text(caps, 4) == #[trigger] spaced(asked) && picked(
                asked,
                seq![
                    if lists_cap(caps, "side-band-64k"@) {
                        Some("side-band-64k"@)
                    } else {
                        None
                    },
                    if lists_cap(caps, "thin-pack"@) {
                        Some("thin-pack"@)
                    } else {
                        None
                    },
                    if lists_cap(caps, "ofs-delta"@) {
                        Some("ofs-delta"@)
                    } else {
                        None
                    },
                    if lists_cap(caps, "multi_ack_detailed"@) {
                        Some("multi_ack_detailed"@)
                    } else {
                        None
                    },
                ],
            ),
{
    let asked = lemma_caps_asked(caps, 4);
    let wanted = Seq::new(
        4,
        |i: int|
            if lists_cap(caps, known_caps()[i]) {
                Some(known_caps()[i])
            } else {
                None
            },
    );
    assert(wanted =~= seq![wanted[0], wanted[1], wanted[2], wanted[3]]);
    assert(caps_text(caps, 4) == spaced(asked));
}

/// What became of a reference, as a line of a report says.
pub open spec fn said_of_ref(line: PktModel) -> Option<(Seq<char>, Option<Seq<char>>)> {
    match line {
        PktModel::Data(p) => {
            let s = trim_end(lossy_text(p));
            let rest = s.subrange(3, s.len() as int);
            let sp = find_from(rest, ' ', 0);
            if s.len() >= 3 && s[0] == 'o' && s[1] == 'k' && s[2] == ' ' {
                Some((rest, None))
            } else if s.len() >= 3 && s[0] == 'n' && s[1] == 'g' && s[2] == ' ' {
                if sp < rest.len() {
                    Some((rest.subrange(0, sp), Some(rest.subrange(sp + 1, rest.len() as int))))
                } else {
                    Some((rest, Some("(no reason)"@)))
                }
            } else {
                None
            }
        },
        _ => None,
    }
}

/// Whether a line of a report says how the unpacking went.
pub open spec fn says_unpack(line: PktModel) -> bool {
    match line {
        PktModel::Data(p) => starts_with(trim_end(lossy_text(p)), "unpack "@),
        _ => false,
    }
}

proof fn lemma_words_apart(s: Seq<char>)
    ensures
        starts_with(s, "ok "@) <==> s.len() >= 3 && s[0] == 'o' && s[1] == 'k' && s[2] == ' ',
        starts_with(s, "ng "@) <==> s.len() >= 3 && s[0] == 'n' && s[1] == 'g' && s[2] == ' ',
        starts_with(s, "unpack "@) ==> s.len() >= 3 && s[0] == 'u',
{
    reveal_strlit("ok ");
    reveal_strlit("ng ");
    reveal_strlit("unpack ");
    if s.len() >= 3 {
        let h = s.subrange(0, 3);
        assert(h[0] == s[0] && h[1] == s[1] && h[2] == s[2]);
        if h[0] == 'o' && h[1] == 'k' && h[2] == ' ' {
            assert(h =~= "ok "@);
        }
        if h[0] == 'n' && h[1] == 'g' && h[2] == ' ' {
            assert(h =~= "ng "@);
        }
    }
    if s.len() >= 7 {
        assert(s.subrange(0, 7)[0] == s[0]);
    }
}

/// A report tells of each reference that one of its lines is about, in order: that it was moved, or
/// why it was not.
pub proof fn law_report_told(ls: Seq<PktModel>)
    ensures
        picked(report_of(ls).refs, Seq::new(ls.len(), |i: int| said_of_ref(ls[i]))),
    decreases ls.len(),
{
    let wanted = Seq::new(ls.len(), |i: int| said_of_ref(ls[i]));
    if ls.len() == 0 {
        lemma_picked_none::<(Seq<char>, Option<Seq<char>>)>();
        assert(wanted =~= Seq::empty());
    } else {
        let t = ls.drop_last();
        law_report_told(t);
        let before = Seq::new(t.len(), |i: int| said_of_ref(t[i]));
        lemma_picked_push(report_of(t).refs, before, wanted.last());
        assert(wanted =~= before.push(wanted.last()));
        if let PktModel::Data(p) = ls.last() {
            lemma_words_apart(trim_end(lossy_text(p)));
        }
    }
}

/// The remote could unpack where the last line about that says `unpack ok`.
pub proof fn law_report_unpacked(ls: Seq<PktModel>, k: int)
    requires
        0 <= k < ls.len(),
        says_unpack(ls[k]),
        forall|i: int| k < i < ls.len() ==> !says_unpack(#[trigger] ls[i]),
    ensures
        report_of(ls).unpacked <==> trim_end(lossy_text(ls[k]->Data_0)) == "unpack ok"@,
    decreases ls.len(),
{
    let t = ls.drop_last();
    if k < ls.len() - 1 {
        assert(!says_unpack(ls[ls.len() - 1]));
        assert forall|i: int| k < i < t.len() implies !says_unpack(#[trigger] t[i]) by {
            assert(t[i] == ls[i]);
        }
        assert(t[k] == ls[k]);
        law_report_unpacked(t, k);
    } else {
        let s = trim_end(lossy_text(ls[k]->Data_0));
        reveal_strlit("unpack ");
        reveal_strlit("unpack ok");
        reveal_strlit("ok");
        assert("unpack ok"@.subrange(7, 9) =~= "ok"@);
        assert(s =~= s.subrange(0, 7) + s.subrange(7, s.len() as int));
        assert("unpack "@ + "ok"@ =~= "unpack ok"@);
    }
}

/// Without a line about it, the remote could not unpack.
pub proof fn law_report_silent(ls: Seq<PktModel>)
    requires
        forall|i: int| 0 <= i < ls.len() ==> !says_unpack(#[trigger] ls[i]),
    ensures
        !report_of(ls).unpacked,
    decreases ls.len(),
{
    if ls.len() > 0 {
        let t = ls.drop_last();
        assert(!says_unpack(ls[ls.len() - 1]));
        assert forall|i: int| 0 <= i < t.len() implies !says_unpack(#[trigger] t[i]) by {
            assert(t[i] == ls[i]);
        }
        law_report_silent(t);
    }
}

/// A reference counts as refused by what the first report on it says; without one it is not.
pub proof fn law_refusal(refs: Seq<(Seq<char>, Option<Seq<char>>)>, name: Seq<char>, k: int)
    requires
        0 <= k <= refs.len(),
        forall|i: int| 0 <= i < k ==> (#[trigger] refs[i]).0 != name,
        k < refs.len() ==> refs[k].0 == name,
    ensures
        refusal(refs, name) == if k < refs.len() {
            refs[k].1
        } else {
            None
        },
    decreases k,
{
    if k > 0 {
        assert(refs[0].0 != name);
        let t = refs.drop_first();
        assert forall|i: int| 0 <= i < k - 1 implies (#[trigger] t[i]).0 != name by {
            assert(t[i] == refs[i + 1]);
        }
        law_refusal(t, name, k - 1);
    }
}

/// What a remote is sent for a push reads as one line, with the id that the remote has, the new one
/// and the name of the reference, a flush, and the pack.
pub proof fn law_push_body(
    old_id: Seq<char>,
    new_id: Seq<char>,
    name: Seq<char>,
    pack: Seq<u8>,
)
    requires
        fits(PktModel::Data(encode_utf8(command(old_id, new_id, name)))),
    ensures
        ({
            let body = push_body(command(old_id, new_id, name), pack);
            let line = old_id + " "@ + new_id + " "@ + name + "\0report-status\n"@;
            &&& pkt_at(body) matches Ok(Some((m, _))) && m == PktModel::Data(encode_utf8(line))
            &&& pkt_at(pkt_rest(body)) matches Ok(Some((m, _))) && m is Flush
            &&& pkt_rest(pkt_rest(body)) == pack
        }),
{
    let line = PktModel::Data(encode_utf8(command(old_id, new_id, name)));
    let t = pkt_bytes(PktModel::Flush) + pack;
    assert(push_body(command(old_id, new_id, name), pack) =~= pkt_bytes(line) + t);
    law_pkt_round_trip(line, t);
    law_pkt_round_trip(PktModel::Flush, pack);
}

} // verus!
