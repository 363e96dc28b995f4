//! What holds of every compiled image.
use vstd::prelude::*;

use crate::image;
use crate::image::{Entry, Tier};
use crate::le;
use crate::store;

verus! {

/// The header takes 24 bytes, the footer 16, and nothing else surrounds the records, which come
/// tier by tier from the highest frequencies down. The first four bytes of the header hold the
/// number of entries. The first eight bytes of the footer hold the size of all keys, and the last
/// eight the size of header and records.
pub proof fn law_image_layout(entries: Seq<(Seq<u8>, u32)>)
    ensures
        image::header(entries).len() == 24,
        image::footer(entries).len() == 16,
        image::image(entries).len() == 24 + image::records(entries).len() + 16,
        image::image(entries).subrange(0, 24) == image::header(entries),
        image::image(entries).subrange(24, 24 + image::records(entries).len() as int)
            == image::records(entries),
        image::image(entries).subrange(
            24 + image::records(entries).len() as int,
            image::image(entries).len() as int,
        ) == image::footer(entries),
        image::footer(entries).subrange(8, 16) == le::le_bytes(
            24 + image::records(entries).len(),
            8,
        ),
        image::header(entries).subrange(0, 4) == le::le_bytes(entries.len(), 4),
        image::footer(entries).subrange(0, 8) == le::le_bytes(image::key_bytes(entries), 8),
        image::image(entries) == image::header(entries) + image::tier_records(entries, Tier::I8)
            + image::tier_records(entries, Tier::I16) + image::tier_records(entries, Tier::I32)
            + image::tier_records(entries, Tier::I64) + image::tier_records(entries, Tier::I128)
            + image::footer(entries),
{
    le::lemma_le_len(entries.len(), 4);
    le::lemma_le_len(image::tier_size(entries, Tier::I8), 4);
    le::lemma_le_len(image::tier_size(entries, Tier::I16), 4);
    le::lemma_le_len(image::tier_size(entries, Tier::I32), 4);
    le::lemma_le_len(image::tier_size(entries, Tier::I64), 4);
    le::lemma_le_len(image::tier_size(entries, Tier::I128), 4);
    le::lemma_le_len(image::key_bytes(entries), 8);
    le::lemma_le_len((image::header(entries) + image::records(entries)).len(), 8);
    let h = image::header(entries);
    let r = image::records(entries);
    let f = image::footer(entries);
    assert((h + r + f).subrange(0, 24) =~= h);
    assert((h + r + f).subrange(24, 24 + r.len() as int) =~= r);
    assert((h + r + f).subrange(24 + r.len() as int, (h + r + f).len() as int) =~= f);
    assert(f.subrange(8, 16) =~= le::le_bytes((h + r).len(), 8));
    assert(h.subrange(0, 4) =~= le::le_bytes(entries.len(), 4));
    assert(f.subrange(0, 8) =~= le::le_bytes(image::key_bytes(entries), 8));
    assert(image::image(entries) =~= h + image::tier_records(entries, Tier::I8)
        + image::tier_records(entries, Tier::I16) + image::tier_records(entries, Tier::I32)
        + image::tier_records(entries, Tier::I64) + image::tier_records(entries, Tier::I128) + f);
}

/// The entries whose frequency is not zero, in order.
pub open spec fn seen(entries: Seq<(Seq<u8>, u32)>) -> Seq<(Seq<u8>, u32)>
    decreases entries.len(),
{
    if entries.len() == 0 {
        Seq::empty()
    } else if entries.last().1 > 0 {
        seen(entries.drop_last()).push(entries.last())
    } else {
        seen(entries.drop_last())
    }
}

proof fn lemma_all_seen(entries: Seq<(Seq<u8>, u32)>)
    requires
        forall|i: int| 0 <= i < entries.len() ==> (#[trigger] entries[i]).1 > 0,
    ensures
        seen(entries) == entries,
    decreases entries.len(),
{
    if entries.len() > 0 {
        let before = entries.drop_last();
        assert forall|i: int| 0 <= i < before.len() implies (#[trigger] before[i]).1 > 0 by {
            assert(before[i] == entries[i]);
        }
        lemma_all_seen(before);
        assert(entries[entries.len() - 1].1 > 0);
        assert(before.push(entries.last()) =~= entries);
    } else {
        assert(seen(entries) =~= entries);
    }
}

proof fn lemma_seen_whole(entries: Seq<(Seq<u8>, u32)>)
    ensures
        seen(entries).len() <= entries.len(),
        seen(entries).len() == entries.len() ==> seen(entries) == entries,
    decreases entries.len(),
{
    if entries.len() > 0 {
        let before = entries.drop_last();
        lemma_seen_whole(before);
        assert(before.push(entries.last()) =~= entries);
    } else {
        assert(seen(entries) =~= entries);
    }
}

/// Every entry that was seen is counted in exactly one tier, and no other entry in any: the tier
/// counts add up to the number of entries whose frequency is not zero.
pub proof fn law_tier_counts_add_up(entries: Seq<(Seq<u8>, u32)>)
    ensures
        image::tier_size(entries, Tier::I8) + image::tier_size(entries, Tier::I16)
            + image::tier_size(entries, Tier::I32) + image::tier_size(entries, Tier::I64)
            + image::tier_size(entries, Tier::I128) == seen(entries).len(),
        (forall|i: int| 0 <= i < entries.len() ==> (#[trigger] entries[i]).1 > 0)
            ==> seen(entries).len() == entries.len(),
    decreases entries.len(),
{
    if entries.len() > 0 {
        law_tier_counts_add_up(entries.drop_last());
    }
    if forall|i: int| 0 <= i < entries.len() ==> (#[trigger] entries[i]).1 > 0 {
        lemma_all_seen(entries);
    }
}

/// The entries that have a record in `tier`, in order.
pub open spec fn of_tier(entries: Seq<(Seq<u8>, u32)>, tier: Tier) -> Seq<(Seq<u8>, u32)>
    decreases entries.len(),
{
    if entries.len() == 0 {
        Seq::empty()
    } else if tier.holds(entries.last().1) {
        of_tier(entries.drop_last(), tier).push(entries.last())
    } else {
        of_tier(entries.drop_last(), tier)
    }
}

/// The entries that have a record, in the order in which the records come.
pub open spec fn listed(entries: Seq<(Seq<u8>, u32)>) -> Seq<(Seq<u8>, u32)> {
    of_tier(entries, Tier::I8) + of_tier(entries, Tier::I16) + of_tier(entries, Tier::I32)
        + of_tier(entries, Tier::I64) + of_tier(entries, Tier::I128)
}

proof fn lemma_of_tier(entries: Seq<(Seq<u8>, u32)>, tier: Tier)
    ensures
        of_tier(entries, tier).len() == image::tier_size(entries, tier),
        forall|i: int|
            0 <= i < of_tier(entries, tier).len() ==> tier.holds(
                (#[trigger] of_tier(entries, tier)[i]).1,
            ),
        forall|i: int|
            0 <= i < of_tier(entries, tier).len() ==> entries.contains(
                #[trigger] of_tier(entries, tier)[i],
            ),
    decreases entries.len(),
{
    if entries.len() > 0 {
        let before = entries.drop_last();
        lemma_of_tier(before, tier);
        assert forall|i: int| 0 <= i < of_tier(entries, tier).len() implies entries.contains(
            #[trigger] of_tier(entries, tier)[i],
        ) by {
            let x = of_tier(entries, tier)[i];
            if i < of_tier(before, tier).len() {
                assert(x == of_tier(before, tier)[i]);
                let k = choose|k: int| 0 <= k < before.len() && before[k] == x;
                assert(entries[k] == x);
            } else {
                assert(x == entries[entries.len() - 1]);
            }
        }
    }
}

proof fn lemma_lower_tiers_empty(entries: Seq<(Seq<u8>, u32)>, tier: Tier, floor: u32)
    requires
        forall|i: int| 0 <= i < entries.len() ==> entries[i].1 >= floor,
        forall|f: u32| tier.holds(f) ==> f < floor,
    ensures
        of_tier(entries, tier) == Seq::<(Seq<u8>, u32)>::empty(),
{
    lemma_of_tier(entries, tier);
    let t = of_tier(entries, tier);
    if t.len() > 0 {
        assert(entries.contains(t[0]));
        assert(tier.holds(t[0].1));
    }
    assert(t =~= Seq::empty());
}

/// In an arranged image the records list the entries in order, from the most frequent down; only
/// entries of frequency zero have none.
pub proof fn law_records_follow_frequency(entries: Seq<(Seq<u8>, u32)>)
    requires
        image::by_descending_frequency(entries),
    ensures
        listed(entries) == seen(entries),
        (forall|i: int| 0 <= i < entries.len() ==> (#[trigger] entries[i]).1 > 0) ==> listed(
            entries,
        ) == entries,
    decreases entries.len(),
{
    if entries.len() == 0 {
        assert(listed(entries) =~= seen(entries));
    } else {
        let before = entries.drop_last();
        let last = entries.last();
        assert forall|i: int, j: int| 0 <= i <= j < before.len() implies before[i].1
            >= before[j].1 by {
            assert(before[i] == entries[i] && before[j] == entries[j]);
        }
        assert forall|i: int| 0 <= i < before.len() implies before[i].1 >= last.1 by {
            assert(before[i] == entries[i]);
            assert(entries[i].1 >= entries[entries.len() - 1].1);
        }
        law_records_follow_frequency(before);
        let f = last.1;
        if f >= 1000 {
            lemma_lower_tiers_empty(before, Tier::I16, 1000);
        }
        if f >= 100 {
            lemma_lower_tiers_empty(before, Tier::I32, 100);
        }
        if f >= 10 {
            lemma_lower_tiers_empty(before, Tier::I64, 10);
        }
        if f >= 2 {
            lemma_lower_tiers_empty(before, Tier::I128, 2);
        }
        if f > 0 {
            assert(listed(entries) =~= listed(before).push(last));
        } else {
            assert(listed(entries) =~= listed(before));
        }
    }
    if forall|i: int| 0 <= i < entries.len() ==> (#[trigger] entries[i]).1 > 0 {
        lemma_all_seen(entries);
    }
}

/// The records of entries that are all in one tier, the first numbered `number`.
pub open spec fn run(entries: Seq<(Seq<u8>, u32)>, width: nat, number: nat) -> Seq<u8>
    decreases entries.len(),
{
    if entries.len() == 0 {
        Seq::empty()
    } else {
        image::record(number, width, entries[0]) + run(entries.drop_first(), width, number + 1)
    }
}

proof fn lemma_run_push(
    entries: Seq<(Seq<u8>, u32)>,
    width: nat,
    number: nat,
    entry: (Seq<u8>, u32),
)
    ensures
        run(entries.push(entry), width, number) == run(entries, width, number) + image::record(
            number + entries.len(),
            width,
            entry,
        ),
    decreases entries.len(),
{
    let all = entries.push(entry);
    if entries.len() == 0 {
        assert(all.drop_first() =~= Seq::empty());
        assert(run(all.drop_first(), width, number + 1) =~= Seq::<u8>::empty());
        assert(run(all, width, number) =~= run(entries, width, number) + image::record(
            number,
            width,
            entry,
        ));
    } else {
        lemma_run_push(entries.drop_first(), width, number + 1, entry);
        assert(all.drop_first() =~= entries.drop_first().push(entry));
        assert(run(all, width, number) =~= run(entries, width, number) + image::record(
            number + entries.len(),
            width,
            entry,
        ));
    }
}

proof fn lemma_tier_records_run(entries: Seq<(Seq<u8>, u32)>, tier: Tier)
    ensures
        image::tier_records(entries, tier) == run(of_tier(entries, tier), tier.id_width(), 0),
    decreases entries.len(),
{
    if entries.len() > 0 {
        let before = entries.drop_last();
        lemma_tier_records_run(before, tier);
        lemma_of_tier(before, tier);
        lemma_run_push(of_tier(before, tier), tier.id_width(), 0, entries.last());
    }
}

/// Where the header counts the records of a tier.
pub open spec fn header_offset(tier: Tier) -> int {
    match tier {
        Tier::I8 => 4,
        Tier::I16 => 8,
        Tier::I32 => 12,
        Tier::I64 => 16,
        Tier::I128 => 20,
    }
}

/// The header counts in each tier the records that the tier has: one for each entry of the tier,
/// and none for any other.
pub proof fn law_counts_match_records(entries: Seq<(Seq<u8>, u32)>, tier: Tier)
    ensures
        image::image(entries).subrange(header_offset(tier), header_offset(tier) + 4)
            == le::le_bytes(of_tier(entries, tier).len(), 4),
        image::tier_records(entries, tier) == run(of_tier(entries, tier), tier.id_width(), 0),
        forall|i: int|
            0 <= i < of_tier(entries, tier).len() ==> tier.holds(
                (#[trigger] of_tier(entries, tier)[i]).1,
            ),
{
    lemma_header_count(entries, tier);
    lemma_tier_records_run(entries, tier);
    lemma_of_tier(entries, tier);
    law_image_layout(entries);
    assert(image::image(entries).subrange(header_offset(tier), header_offset(tier) + 4)
        =~= image::header(entries).subrange(header_offset(tier), header_offset(tier) + 4));
}

/// All keys fit in a record.
pub open spec fn keys_fit(entries: Seq<(Seq<u8>, u32)>) -> bool {
    forall|i: int| 0 <= i < entries.len() ==> (#[trigger] entries[i]).0.len() <= 255
}

proof fn lemma_record_parts(number: nat, width: nat, e: (Seq<u8>, u32), rest: Seq<u8>)
    requires
        e.0.len() <= 255,
    ensures
        image::record(number, width, e).len() == width + 5 + e.0.len(),
        (image::record(number, width, e) + rest)[width as int] == e.0.len(),
        (image::record(number, width, e) + rest).subrange(
            width as int + 1,
            width as int + 1 + e.0.len() as int,
        ) == e.0,
        (image::record(number, width, e) + rest).subrange(
            width as int + 1 + e.0.len() as int,
            width as int + 5 + e.0.len() as int,
        ) == le::le_bytes(e.1 as nat, 4),
        (image::record(number, width, e) + rest).subrange(
            width as int + 5 + e.0.len() as int,
            (image::record(number, width, e) + rest).len() as int,
        ) == rest,
{
    le::lemma_le_len(number, width);
    le::lemma_le_len(e.1 as nat, 4);
    assert(e.0.subrange(0, e.0.len() as int) =~= e.0);
    let whole = image::record(number, width, e) + rest;
    assert(whole.subrange(width as int + 1, width as int + 1 + e.0.len() as int) =~= e.0);
    assert(whole.subrange(
        width as int + 1 + e.0.len() as int,
        width as int + 5 + e.0.len() as int,
    ) =~= le::le_bytes(e.1 as nat, 4));
    assert(whole.subrange(width as int + 5 + e.0.len() as int, whole.len() as int) =~= rest);
}

proof fn lemma_run_injective(
    a: Seq<(Seq<u8>, u32)>,
    b: Seq<(Seq<u8>, u32)>,
    width: nat,
    number: nat,
    after_a: Seq<u8>,
    after_b: Seq<u8>,
)
    requires
        a.len() == b.len(),
        keys_fit(a),
        keys_fit(b),
        run(a, width, number) + after_a == run(b, width, number) + after_b,
    ensures
        a == b,
        after_a == after_b,
    decreases a.len(),
{
    if a.len() == 0 {
        assert(a =~= b);
        assert(run(a, width, number) + after_a =~= after_a);
        assert(run(b, width, number) + after_b =~= after_b);
    } else {
        let rest_a = run(a.drop_first(), width, number + 1) + after_a;
        let rest_b = run(b.drop_first(), width, number + 1) + after_b;
        assert(run(a, width, number) + after_a =~= image::record(number, width, a[0]) + rest_a);
        assert(run(b, width, number) + after_b =~= image::record(number, width, b[0]) + rest_b);
        lemma_record_parts(number, width, a[0], rest_a);
        lemma_record_parts(number, width, b[0], rest_b);
        le::lemma_le_capacities();
        assert(a[0].0.len() == b[0].0.len());
        assert(le::le_bytes(a[0].1 as nat, 4) == le::le_bytes(b[0].1 as nat, 4));
        le::law_le_injective(a[0].1 as nat, b[0].1 as nat, 4);
        assert(keys_fit(a.drop_first()));
        assert(keys_fit(b.drop_first()));
        lemma_run_injective(a.drop_first(), b.drop_first(), width, number + 1, after_a, after_b);
        assert(a =~= seq![a[0]] + a.drop_first());
        assert(b =~= seq![b[0]] + b.drop_first());
    }
}

proof fn lemma_of_tier_keys_fit(entries: Seq<(Seq<u8>, u32)>, tier: Tier)
    requires
        keys_fit(entries),
    ensures
        keys_fit(of_tier(entries, tier)),
{
    lemma_of_tier(entries, tier);
    assert forall|i: int| 0 <= i < of_tier(entries, tier).len() implies (#[trigger] of_tier(
        entries,
        tier,
    )[i]).0.len() <= 255 by {
        let x = of_tier(entries, tier)[i];
        let k = choose|k: int| 0 <= k < entries.len() && entries[k] == x;
        assert(entries[k].0.len() <= 255);
    }
}

proof fn lemma_tier_size_bound(entries: Seq<(Seq<u8>, u32)>, tier: Tier)
    ensures
        image::tier_size(entries, tier) <= entries.len(),
    decreases entries.len(),
{
    if entries.len() > 0 {
        lemma_tier_size_bound(entries.drop_last(), tier);
    }
}

/// The image of arranged entries, none with a key that a record cuts, says how many entries there
/// are, and which were seen and in which order: where all were, it says which entries they are.
pub proof fn law_image_determines_entries(a: Seq<(Seq<u8>, u32)>, b: Seq<(Seq<u8>, u32)>)
    requires
        a.len() <= u32::MAX,
        b.len() <= u32::MAX,
        image::by_descending_frequency(a),
        image::by_descending_frequency(b),
        keys_fit(a),
        keys_fit(b),
        image::image(a) == image::image(b),
    ensures
        a.len() == b.len(),
        seen(a) == seen(b),
        (forall|i: int| 0 <= i < a.len() ==> (#[trigger] a[i]).1 > 0) ==> a == b,
{
    law_image_layout(a);
    law_image_layout(b);
    le::lemma_le_capacities();
    let ha = image::header(a);
    let hb = image::header(b);
    assert(ha == hb);
    assert(ha.subrange(0, 4) =~= le::le_bytes(a.len(), 4)) by {
        le::lemma_le_len(a.len(), 4);
    }
    assert(hb.subrange(0, 4) =~= le::le_bytes(b.len(), 4)) by {
        le::lemma_le_len(b.len(), 4);
    }
    le::law_le_injective(a.len(), b.len(), 4);
    assert forall|tier: Tier| of_tier(a, tier).len() == of_tier(b, tier).len() by {
        lemma_header_count(a, tier);
        lemma_header_count(b, tier);
        lemma_tier_size_bound(a, tier);
        lemma_tier_size_bound(b, tier);
        le::law_le_injective(image::tier_size(a, tier), image::tier_size(b, tier), 4);
        lemma_of_tier(a, tier);
        lemma_of_tier(b, tier);
    }
    assert(image::records(a) == image::records(b));
    lemma_records_runs(a);
    lemma_records_runs(b);
    lemma_of_tier_keys_fit(a, Tier::I8);
    lemma_of_tier_keys_fit(b, Tier::I8);
    lemma_of_tier_keys_fit(a, Tier::I16);
    lemma_of_tier_keys_fit(b, Tier::I16);
    lemma_of_tier_keys_fit(a, Tier::I32);
    lemma_of_tier_keys_fit(b, Tier::I32);
    lemma_of_tier_keys_fit(a, Tier::I64);
    lemma_of_tier_keys_fit(b, Tier::I64);
    lemma_of_tier_keys_fit(a, Tier::I128);
    lemma_of_tier_keys_fit(b, Tier::I128);
    let none = Seq::<u8>::empty();
    let a5 = run(of_tier(a, Tier::I128), 16, 0) + none;
    let b5 = run(of_tier(b, Tier::I128), 16, 0) + none;
    let a4 = run(of_tier(a, Tier::I64), 8, 0) + a5;
    let b4 = run(of_tier(b, Tier::I64), 8, 0) + b5;
    let a3 = run(of_tier(a, Tier::I32), 4, 0) + a4;
    let b3 = run(of_tier(b, Tier::I32), 4, 0) + b4;
    let a2 = run(of_tier(a, Tier::I16), 2, 0) + a3;
    let b2 = run(of_tier(b, Tier::I16), 2, 0) + b3;
    lemma_run_injective(of_tier(a, Tier::I8), of_tier(b, Tier::I8), 1, 0, a2, b2);
    lemma_run_injective(of_tier(a, Tier::I16), of_tier(b, Tier::I16), 2, 0, a3, b3);
    lemma_run_injective(of_tier(a, Tier::I32), of_tier(b, Tier::I32), 4, 0, a4, b4);
    lemma_run_injective(of_tier(a, Tier::I64), of_tier(b, Tier::I64), 8, 0, a5, b5);
    lemma_run_injective(of_tier(a, Tier::I128), of_tier(b, Tier::I128), 16, 0, none, none);
    law_records_follow_frequency(a);
    law_records_follow_frequency(b);
    if forall|i: int| 0 <= i < a.len() ==> (#[trigger] a[i]).1 > 0 {
        lemma_all_seen(a);
        lemma_seen_whole(b);
    }
}

proof fn lemma_header_count(entries: Seq<(Seq<u8>, u32)>, tier: Tier)
    ensures
        image::header(entries).subrange(header_offset(tier), header_offset(tier) + 4)
            == le::le_bytes(image::tier_size(entries, tier), 4),
{
    le::lemma_le_len(entries.len(), 4);
    le::lemma_le_len(image::tier_size(entries, Tier::I8), 4);
    le::lemma_le_len(image::tier_size(entries, Tier::I16), 4);
    le::lemma_le_len(image::tier_size(entries, Tier::I32), 4);
    le::lemma_le_len(image::tier_size(entries, Tier::I64), 4);
    le::lemma_le_len(image::tier_size(entries, Tier::I128), 4);
    assert(image::header(entries).subrange(header_offset(tier), header_offset(tier) + 4)
        =~= le::le_bytes(image::tier_size(entries, tier), 4));
}

proof fn lemma_records_runs(entries: Seq<(Seq<u8>, u32)>)
    ensures
        image::records(entries) == run(of_tier(entries, Tier::I8), 1, 0) + (run(
            of_tier(entries, Tier::I16),
            2,
            0,
        ) + (run(of_tier(entries, Tier::I32), 4, 0) + (run(of_tier(entries, Tier::I64), 8, 0) + (
        run(of_tier(entries, Tier::I128), 16, 0) + Seq::<u8>::empty())))),
{
    lemma_tier_records_run(entries, Tier::I8);
    lemma_tier_records_run(entries, Tier::I16);
    lemma_tier_records_run(entries, Tier::I32);
    lemma_tier_records_run(entries, Tier::I64);
    lemma_tier_records_run(entries, Tier::I128);
    assert(image::records(entries) =~= run(of_tier(entries, Tier::I8), 1, 0) + (run(
        of_tier(entries, Tier::I16),
        2,
        0,
    ) + (run(of_tier(entries, Tier::I32), 4, 0) + (run(of_tier(entries, Tier::I64), 8, 0) + (run(
        of_tier(entries, Tier::I128),
        16,
        0,
    ) + Seq::<u8>::empty())))));
}

spec fn count_weight(tier: Tier) -> spec_fn((Seq<u8>, u32)) -> nat {
    |e: (Seq<u8>, u32)|
        if tier.holds(e.1) {
            1nat
        } else {
            0nat
        }
}

proof fn lemma_tier_size_weigh(entries: Seq<(Seq<u8>, u32)>, tier: Tier)
    ensures
        image::tier_size(entries, tier) == image::weigh(entries, count_weight(tier)),
    decreases entries.len(),
{
    if entries.len() > 0 {
        lemma_tier_size_weigh(entries.drop_last(), tier);
    }
}

spec fn size_weight(tier: Tier) -> spec_fn((Seq<u8>, u32)) -> nat {
    |e: (Seq<u8>, u32)|
        if tier.holds(e.1) {
            tier.id_width() + 5 + image::kept_len(e.0)
        } else {
            0nat
        }
}

proof fn lemma_tier_records_weigh(entries: Seq<(Seq<u8>, u32)>, tier: Tier)
    ensures
        image::tier_records(entries, tier).len() == image::weigh(entries, size_weight(tier)),
    decreases entries.len(),
{
    if entries.len() > 0 {
        let before = entries.drop_last();
        lemma_tier_records_weigh(before, tier);
        le::lemma_le_len(image::tier_size(before, tier), tier.id_width());
        le::lemma_le_len(entries.last().1 as nat, 4);
    }
}

/// However entries of equal frequency are ordered, header, footer and size of the image are the
/// same.
pub proof fn law_ties_leave_header_and_footer(
    a: Seq<(Seq<u8>, u32)>,
    b: Seq<(Seq<u8>, u32)>,
    entries: Seq<(Seq<u8>, u32)>,
)
    requires
        image::arranges(a, entries),
        image::arranges(b, entries),
    ensures
        image::header(a) == image::header(b),
        image::footer(a) == image::footer(b),
        image::image(a).len() == image::image(b).len(),
{
    image::lemma_key_bytes_rearranged(a, b);
    assert forall|tier: Tier|
        image::tier_size(a, tier) == image::tier_size(b, tier) && image::tier_records(
            a,
            tier,
        ).len() == #[trigger] image::tier_records(b, tier).len() by {
        lemma_tier_size_weigh(a, tier);
        lemma_tier_size_weigh(b, tier);
        image::lemma_weigh_rearranged(a, b, count_weight(tier));
        lemma_tier_records_weigh(a, tier);
        lemma_tier_records_weigh(b, tier);
        image::lemma_weigh_rearranged(a, b, size_weight(tier));
    }
    assert(image::tier_records(b, Tier::I8).len() == image::tier_records(a, Tier::I8).len());
    assert(image::tier_records(b, Tier::I16).len() == image::tier_records(a, Tier::I16).len());
    assert(image::tier_records(b, Tier::I32).len() == image::tier_records(a, Tier::I32).len());
    assert(image::tier_records(b, Tier::I64).len() == image::tier_records(a, Tier::I64).len());
    assert(image::tier_records(b, Tier::I128).len() == image::tier_records(a, Tier::I128).len());
}

/// The bounds of the tiers, and the bytes that a record number takes in each.
pub proof fn law_tier_bounds(freq: u32)
    ensures
        Tier::I8.holds(freq) == (1000 <= freq),
        Tier::I16.holds(freq) == (100 <= freq <= 999),
        Tier::I32.holds(freq) == (10 <= freq <= 99),
        Tier::I64.holds(freq) == (2 <= freq <= 9),
        Tier::I128.holds(freq) == (freq == 1),
        Tier::I8.id_width() == 1,
        Tier::I16.id_width() == 2,
        Tier::I32.id_width() == 4,
        Tier::I64.id_width() == 8,
        Tier::I128.id_width() == 16,
{
}

/// A tier has the entries of its frequencies, all of them and in order, and the header counts
/// them. Those that were seen are the ones of a frequency above zero.
pub proof fn law_tiers_hold_their_entries(entries: Seq<(Seq<u8>, u32)>, tier: Tier)
    ensures
        of_tier(entries, tier) == entries.filter(|e: (Seq<u8>, u32)| tier.holds(e.1)),
        image::tier_size(entries, tier) == entries.filter(
            |e: (Seq<u8>, u32)| tier.holds(e.1),
        ).len(),
        seen(entries) == entries.filter(|e: (Seq<u8>, u32)| e.1 > 0),
    decreases entries.len(),
{
    reveal(Seq::filter);
    lemma_of_tier(entries, tier);
    if entries.len() > 0 {
        law_tiers_hold_their_entries(entries.drop_last(), tier);
    } else {
        assert(of_tier(entries, tier) =~= entries);
        assert(seen(entries) =~= entries);
    }
}

/// A record is its number in `width` bytes, the number of key bytes in one, the key up to 255
/// bytes, and the frequency in four.
pub proof fn law_record_layout(number: nat, width: nat, entry: (Seq<u8>, u32))
    ensures
        ({
            let r = image::record(number, width, entry);
            let w = width as int;
            let kept: int = if entry.0.len() <= 255 {
                entry.0.len() as int
            } else {
                255
            };
            &&& r.len() == w + 1 + kept + 4
            &&& r.subrange(0, w) == le::le_bytes(number, width)
            &&& r[w] == kept
            &&& r.subrange(w + 1, w + 1 + kept) == entry.0.subrange(0, kept)
            &&& r.subrange(w + 1 + kept, w + 1 + kept + 4) == le::le_bytes(entry.1 as nat, 4)
        }),
{
    let r = image::record(number, width, entry);
    let w = width as int;
    let kept: int = if entry.0.len() <= 255 {
        entry.0.len() as int
    } else {
        255
    };
    le::lemma_le_len(number, width);
    le::lemma_le_len(entry.1 as nat, 4);
    assert(r.subrange(0, w) =~= le::le_bytes(number, width));
    assert(r.subrange(w + 1, w + 1 + kept) =~= entry.0.subrange(0, kept));
    assert(r.subrange(w + 1 + kept, w + 1 + kept + 4) =~= le::le_bytes(entry.1 as nat, 4));
}

/// Where the record of entry `i` starts, among records with numbers of `width` bytes.
pub open spec fn record_start(entries: Seq<(Seq<u8>, u32)>, width: nat, i: int) -> int
    decreases i,
{
    if i <= 0 {
        0
    } else {
        width + 1 + (if entries[0].0.len() <= 255 {
            entries[0].0.len() as int
        } else {
            255
        }) + 4 + record_start(
            entries.drop_first(),
            width,
            i - 1,
        )
    }
}

proof fn lemma_run_at(entries: Seq<(Seq<u8>, u32)>, width: nat, number: nat, i: int)
    requires
        0 <= i < entries.len(),
    ensures
        ({
            let at = record_start(entries, width, i);
            let r = image::record((number + i) as nat, width, entries[i]);
            &&& 0 <= at
            &&& at + r.len() <= run(entries, width, number).len()
            &&& run(entries, width, number).subrange(at, at + r.len()) == r
        }),
    decreases i,
{
    let first = image::record(number, width, entries[0]);
    let rest = run(entries.drop_first(), width, number + 1);
    law_record_layout(number, width, entries[0]);
    let r = image::record((number + i) as nat, width, entries[i]);
    let at = record_start(entries, width, i);
    if i == 0 {
        assert((first + rest).subrange(0, r.len() as int) =~= r);
    } else {
        lemma_run_at(entries.drop_first(), width, number + 1, i - 1);
        assert(entries.drop_first()[i - 1] == entries[i]);
        let before = record_start(entries.drop_first(), width, i - 1);
        assert(at == first.len() + before);
        assert((first + rest).subrange(at, at + r.len()) =~= rest.subrange(
            before,
            before + r.len(),
        ));
    }
}

proof fn lemma_run_len(entries: Seq<(Seq<u8>, u32)>, width: nat, number: nat)
    ensures
        run(entries, width, number).len() == record_start(entries, width, entries.len() as int),
    decreases entries.len(),
{
    if entries.len() > 0 {
        law_record_layout(number, width, entries[0]);
        lemma_run_len(entries.drop_first(), width, number + 1);
    }
}

/// In every tier the records follow each other without a gap, one for each entry of the tier, in
/// order and numbered from zero: record `i` starts with the number `i` and holds the key and the
/// frequency of entry `i`.
pub proof fn law_records_are_numbered(entries: Seq<(Seq<u8>, u32)>, tier: Tier, i: int)
    requires
        0 <= i < entries.filter(|e: (Seq<u8>, u32)| tier.holds(e.1)).len(),
    ensures
        ({
            let kin = entries.filter(|e: (Seq<u8>, u32)| tier.holds(e.1));
            let bytes = image::tier_records(entries, tier);
            let w = tier.id_width() as int;
            let at = record_start(kin, tier.id_width(), i);
            let key = kin[i].0;
            let kept: int = if key.len() <= 255 {
                key.len() as int
            } else {
                255
            };
            &&& bytes.len() == record_start(kin, tier.id_width(), kin.len() as int)
            &&& 0 <= at
            &&& at + w + 1 + kept + 4 <= bytes.len()
            &&& bytes.subrange(at, at + w) == le::le_bytes(i as nat, tier.id_width())
            &&& bytes[at + w] == kept
            &&& bytes.subrange(at + w + 1, at + w + 1 + kept) == key.subrange(0, kept)
            &&& bytes.subrange(at + w + 1 + kept, at + w + 1 + kept + 4) == le::le_bytes(
                kin[i].1 as nat,
                4,
            )
        }),
{
    let kin = entries.filter(|e: (Seq<u8>, u32)| tier.holds(e.1));
    let bytes = image::tier_records(entries, tier);
    let width = tier.id_width();
    let w = width as int;
    let at = record_start(kin, width, i);
    let key = kin[i].0;
    let kept: int = if key.len() <= 255 {
        key.len() as int
    } else {
        255
    };
    law_tiers_hold_their_entries(entries, tier);
    lemma_tier_records_run(entries, tier);
    lemma_run_at(kin, width, 0, i);
    lemma_run_len(kin, width, 0);
    law_record_layout(i as nat, width, kin[i]);
    let r = image::record(i as nat, width, kin[i]);
    assert(bytes.subrange(at, at + r.len()) == r);
    assert(bytes.subrange(at, at + w) =~= r.subrange(0, w));
    assert(bytes[at + w] == r[w]);
    assert(bytes.subrange(at + w + 1, at + w + 1 + kept) =~= r.subrange(w + 1, w + 1 + kept));
    assert(bytes.subrange(at + w + 1 + kept, at + w + 1 + kept + 4) =~= r.subrange(
        w + 1 + kept,
        w + 1 + kept + 4,
    ));
}

/// No two records of a tier have the same number, as long as the numbers of the tier last: 256 in
/// the first tier, 65536 in the second, and more than there can be records in the others.
pub proof fn law_record_numbers_differ(
    entries: Seq<(Seq<u8>, u32)>,
    tier: Tier,
    i: int,
    j: int,
)
    requires
        0 <= i < j < entries.filter(|e: (Seq<u8>, u32)| tier.holds(e.1)).len(),
        tier is I8 ==> j < 0x100,
        tier is I16 ==> j < 0x1_0000,
        j <= u32::MAX,
    ensures
        ({
            let kin = entries.filter(|e: (Seq<u8>, u32)| tier.holds(e.1));
            let bytes = image::tier_records(entries, tier);
            let w = tier.id_width() as int;
            let a = record_start(kin, tier.id_width(), i);
            let b = record_start(kin, tier.id_width(), j);
            bytes.subrange(a, a + w) != bytes.subrange(b, b + w)
        }),
{
    law_records_are_numbered(entries, tier, i);
    law_records_are_numbered(entries, tier, j);
    law_tier_bounds(0);
    le::lemma_le_capacities();
    let width = tier.id_width();
    if le::le_bytes(i as nat, width) == le::le_bytes(j as nat, width) {
        le::law_le_injective(i as nat, j as nat, width);
    }
}

/// The size of all keys is the sum of the lengths of the keys, cut or not and seen or not.
pub proof fn law_key_bytes_add_up(
    a: Seq<(Seq<u8>, u32)>,
    b: Seq<(Seq<u8>, u32)>,
    entry: (Seq<u8>, u32),
)
    ensures
        image::key_bytes(Seq::empty()) == 0,
        image::key_bytes(seq![entry]) == entry.0.len(),
        image::key_bytes(a + b) == image::key_bytes(a) + image::key_bytes(b),
    decreases b.len(),
{
    assert(seq![entry].drop_last() =~= Seq::empty());
    reveal_with_fuel(image::key_bytes, 2);
    if b.len() == 0 {
        assert(a + b =~= a);
    } else {
        law_key_bytes_add_up(a, b.drop_last(), entry);
        assert((a + b).drop_last() =~= a + b.drop_last());
    }
}

/// Rows are read one by one and in order. A row of four bytes or more gives an entry, with its
/// whole key and the number that the first four bytes hold; a shorter one gives none.
pub proof fn law_rows_are_read(
    a: Seq<(Vec<u8>, Vec<u8>)>,
    b: Seq<(Vec<u8>, Vec<u8>)>,
    row: (Vec<u8>, Vec<u8>),
)
    ensures
        image::readable(Seq::empty()) == Seq::<(Seq<u8>, u32)>::empty(),
        image::readable(a + b) == image::readable(a) + image::readable(b),
        row.1@.len() < 4 ==> image::readable(seq![row]) == Seq::<(Seq<u8>, u32)>::empty(),
        row.1@.len() >= 4 ==> image::readable(seq![row]).len() == 1 && image::readable(
            seq![row],
        )[0].0 == row.0@ && image::readable(seq![row])[0].1 == row.1@[0] + 0x100 * row.1@[1]
            + 0x1_0000 * row.1@[2] + 0x100_0000 * row.1@[3],
    decreases b.len(),
{
    assert(seq![row].drop_last() =~= Seq::empty());
    reveal_with_fuel(image::readable, 2);
    store::law_stored_count_reads_four_bytes(row.1@);
    if b.len() == 0 {
        assert(a + b =~= a);
        assert(image::readable(a) + image::readable(b) =~= image::readable(a));
    } else {
        law_rows_are_read(a, b.drop_last(), row);
        assert((a + b).drop_last() =~= a + b.drop_last());
        assert(image::readable(a + b) =~= image::readable(a) + image::readable(b));
    }
}

/// Entries are arranged when they are the same entries, each as often as before, and none comes
/// before one that is more frequent.
pub proof fn law_arranging_sorts(
    sorted: Seq<(Seq<u8>, u32)>,
    entries: Seq<(Seq<u8>, u32)>,
    i: int,
    j: int,
)
    requires
        image::arranges(sorted, entries),
        0 <= i <= j < sorted.len(),
    ensures
        sorted.to_multiset() == entries.to_multiset(),
        sorted.len() == entries.len(),
        sorted[i].1 >= sorted[j].1,
        entries.contains(sorted[i]),
{
    sorted.to_multiset_ensures();
    entries.to_multiset_ensures();
    assert(sorted.contains(sorted[i]));
    assert(sorted.to_multiset().count(sorted[i]) > 0);
}

/// An entry is seen with its key and its frequency, and a list of entries one by one.
pub proof fn law_entries_are_seen_whole(entries: Seq<Entry>, i: int)
    requires
        0 <= i < entries.len(),
    ensures
        image::entry_views(entries).len() == entries.len(),
        image::entry_views(entries)[i].0 == entries[i].key@,
        image::entry_views(entries)[i].1 == entries[i].freq,
{
}

/// The header is six numbers of four bytes: how many entries there are, and how many of them have
/// a frequency of 1000 and more, of 100 to 999, of 10 to 99, of 2 to 9, and of 1.
pub proof fn law_header_fields(entries: Seq<(Seq<u8>, u32)>)
    ensures
        ({
            let bytes = image::image(entries);
            &&& bytes.subrange(0, 4) == le::le_bytes(entries.len(), 4)
            &&& bytes.subrange(4, 8) == le::le_bytes(
                entries.filter(|e: (Seq<u8>, u32)| 1000 <= e.1).len(),
                4,
            )
            &&& bytes.subrange(8, 12) == le::le_bytes(
                entries.filter(|e: (Seq<u8>, u32)| 100 <= e.1 <= 999).len(),
                4,
            )
            &&& bytes.subrange(12, 16) == le::le_bytes(
                entries.filter(|e: (Seq<u8>, u32)| 10 <= e.1 <= 99).len(),
                4,
            )
            &&& bytes.subrange(16, 20) == le::le_bytes(
                entries.filter(|e: (Seq<u8>, u32)| 2 <= e.1 <= 9).len(),
                4,
            )
            &&& bytes.subrange(20, 24) == le::le_bytes(
                entries.filter(|e: (Seq<u8>, u32)| e.1 == 1).len(),
                4,
            )
        }),
{
    let bytes = image::image(entries);
    law_image_layout(entries);
    assert(bytes.subrange(0, 4) =~= image::header(entries).subrange(0, 4));
    law_counts_match_records(entries, Tier::I8);
    law_counts_match_records(entries, Tier::I16);
    law_counts_match_records(entries, Tier::I32);
    law_counts_match_records(entries, Tier::I64);
    law_counts_match_records(entries, Tier::I128);
    law_tiers_hold_their_entries(entries, Tier::I8);
    law_tiers_hold_their_entries(entries, Tier::I16);
    law_tiers_hold_their_entries(entries, Tier::I32);
    law_tiers_hold_their_entries(entries, Tier::I64);
    law_tiers_hold_their_entries(entries, Tier::I128);
    assert((|e: (Seq<u8>, u32)| Tier::I8.holds(e.1)) =~= (|e: (Seq<u8>, u32)| 1000 <= e.1));
    assert((|e: (Seq<u8>, u32)| Tier::I16.holds(e.1)) =~= (|e: (Seq<u8>, u32)| 100 <= e.1 <= 999));
    assert((|e: (Seq<u8>, u32)| Tier::I32.holds(e.1)) =~= (|e: (Seq<u8>, u32)| 10 <= e.1 <= 99));
    assert((|e: (Seq<u8>, u32)| Tier::I64.holds(e.1)) =~= (|e: (Seq<u8>, u32)| 2 <= e.1 <= 9));
    assert((|e: (Seq<u8>, u32)| Tier::I128.holds(e.1)) =~= (|e: (Seq<u8>, u32)| e.1 == 1));
}

} // verus!
