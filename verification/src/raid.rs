//! RAID geometry: disk orders, RAID-5 parity rotation and data-disk order,
//! and the plans that say, row by row, which stripe of which image makes up
//! the logical volume.
use vstd::prelude::*;

use crate::features::{is_parity_row, lemma_parity_row_rebuilds_block, lemma_xor_rows_step, vec_views, xor_into, xor_rows};
use crate::image::{seq_min, ImageSet};
use crate::text::{ascii_lower, chars_eq, concat3, decimal, string_of, str_eq, to_ascii_lowercase, usize_to_string};

verus! {

/// The canonical RAID name for `raid`, lower-cased: `0`, `raid0` and
/// `raid-0` all name RAID-0, and likewise for levels 1 and 5; any other
/// name is kept, lower-cased.
pub open spec fn spec_normalize_raid(raid: Seq<char>) -> Seq<char> {
    let lower = ascii_lower(raid);
    if lower == "0"@ || lower == "raid0"@ || lower == "raid-0"@ {
        "raid0"@
    } else if lower == "1"@ || lower == "raid1"@ || lower == "raid-1"@ {
        "raid1"@
    } else if lower == "5"@ || lower == "raid5"@ || lower == "raid-5"@ {
        "raid5"@
    } else {
        lower
    }
}

/// The canonical name of a RAID level (see `spec_normalize_raid`).
pub fn normalize_raid(raid: &str) -> (r: String)
    ensures
        r@ == spec_normalize_raid(raid@),
{
    let lower = to_ascii_lowercase(raid);
    if chars_eq(&lower, "0") || chars_eq(&lower, "raid0") || chars_eq(&lower, "raid-0") {
        String::from_str("raid0")
    } else if chars_eq(&lower, "1") || chars_eq(&lower, "raid1") || chars_eq(&lower, "raid-1") {
        String::from_str("raid1")
    } else if chars_eq(&lower, "5") || chars_eq(&lower, "raid5") || chars_eq(&lower, "raid-5") {
        String::from_str("raid5")
    } else {
        string_of(&lower)
    }
}

/// The four RAID-5 layouts: where parity sits in each row, and in which
/// order the data disks follow.
pub enum Layout {
    LeftSymmetric,
    LeftAsymmetric,
    RightSymmetric,
    RightAsymmetric,
}

/// The layout that `name` names, if any.
pub open spec fn spec_layout(name: Seq<char>) -> Option<Layout> {
    if name == "left-symmetric"@ {
        Some(Layout::LeftSymmetric)
    } else if name == "left-asymmetric"@ {
        Some(Layout::LeftAsymmetric)
    } else if name == "right-symmetric"@ {
        Some(Layout::RightSymmetric)
    } else if name == "right-asymmetric"@ {
        Some(Layout::RightAsymmetric)
    } else {
        None
    }
}

fn parse_layout(name: &str) -> (r: Option<Layout>)
    ensures
        r == spec_layout(name@),
{
    if str_eq(name, "left-symmetric") {
        Some(Layout::LeftSymmetric)
    } else if str_eq(name, "left-asymmetric") {
        Some(Layout::LeftAsymmetric)
    } else if str_eq(name, "right-symmetric") {
        Some(Layout::RightSymmetric)
    } else if str_eq(name, "right-asymmetric") {
        Some(Layout::RightAsymmetric)
    } else {
        None
    }
}

/// The error for a layout name that is none of the four.
pub open spec fn unsupported_layout_msg(name: Seq<char>) -> Seq<char> {
    "unsupported RAID-5 layout '"@ + name + "'"@
}

fn unsupported_layout_error(name: &str) -> (e: String)
    ensures
        e@ == unsupported_layout_msg(name@),
{
    concat3("unsupported RAID-5 layout '", name, "'")
}

/// The disk that holds parity in row `row` of an array of `n` disks:
/// left layouts start at the last disk and move left one disk per row,
/// right layouts start at the first disk and move right.
pub open spec fn spec_parity_disk(row: nat, n: nat, layout: Layout) -> nat
    recommends
        n > 0,
{
    match layout {
        Layout::LeftSymmetric | Layout::LeftAsymmetric => ((n - 1) - (row % n)) as nat,
        Layout::RightSymmetric | Layout::RightAsymmetric => row % n,
    }
}

/// The parity disk of row `row` in an array of `disk_count` disks laid out
/// as `layout` names; an error when `layout` names no RAID-5 layout.
pub fn parity_disk(row: usize, disk_count: usize, layout: &str) -> (r: Result<usize, String>)
    requires
        spec_layout(layout@) is Some ==> disk_count > 0,
    ensures
        match spec_layout(layout@) {
            Some(l) => r == Ok::<usize, String>(spec_parity_disk(row as nat, disk_count as nat, l) as usize),
            None => r is Err && r->Err_0@ == unsupported_layout_msg(layout@),
        },
{
    match parse_layout(layout) {
        Some(Layout::LeftSymmetric) | Some(Layout::LeftAsymmetric) => Ok((disk_count - 1) - (row % disk_count)),
        Some(Layout::RightSymmetric) | Some(Layout::RightAsymmetric) => Ok(row % disk_count),
        None => Err(unsupported_layout_error(layout)),
    }
}

/// The parity disk is always one of the array's disks.
pub proof fn lemma_parity_disk_in_range(row: nat, n: nat, layout: Layout)
    requires
        n > 0,
    ensures
        spec_parity_disk(row, n, layout) < n,
{
}

/// From one row to the next, parity moves one disk to the left (wrapping
/// from the first disk to the last) in left layouts, and one disk to the
/// right in right layouts.
pub proof fn lemma_parity_rotates(row: nat, n: nat, layout: Layout)
    requires
        n > 0,
    ensures
        match layout {
            Layout::LeftSymmetric | Layout::LeftAsymmetric =>
                spec_parity_disk(row + 1, n, layout) == ((spec_parity_disk(row, n, layout) + n - 1) as nat) % n,
            Layout::RightSymmetric | Layout::RightAsymmetric =>
                spec_parity_disk(row + 1, n, layout) == (spec_parity_disk(row, n, layout) + 1) % n,
        },
{
    vstd::arithmetic::div_mod::lemma_mod_bound(row as int, n as int);
    vstd::arithmetic::div_mod::lemma_add_mod_noop(row as int, 1, n as int);
    if n > 1 {
        vstd::arithmetic::div_mod::lemma_small_mod(1, n);
    }
    let r = (row % n) as int;
    lemma_mod_wrap(r + 1, n as int);
    lemma_mod_wrap((n - 1 - r) + n - 1, n as int);
    if r + 1 < n {
        vstd::arithmetic::div_mod::lemma_small_mod((r + 1) as nat, n);
    }
}

/// The disks `0..n` other than `parity`, in increasing order.
pub open spec fn disks_except(n: nat, parity: nat) -> Seq<usize>
    decreases n,
{
    if n == 0 {
        Seq::empty()
    } else if n - 1 == parity {
        disks_except((n - 1) as nat, parity)
    } else {
        disks_except((n - 1) as nat, parity).push((n - 1) as usize)
    }
}

/// The order in which the data disks of row `row` are read, for an array of
/// `n` disks with parity on disk `parity`. Symmetric layouts start just after
/// the parity disk and wrap around; asymmetric layouts go from the first disk
/// to the last, skipping parity, and right-asymmetric reverses that order on
/// odd rows.
pub open spec fn spec_data_disks(row: nat, n: nat, parity: nat, layout: Layout) -> Seq<usize> {
    match layout {
        Layout::LeftSymmetric | Layout::RightSymmetric =>
            Seq::new((n - 1) as nat, |k: int| ((parity + 1 + k) % (n as int)) as usize),
        Layout::LeftAsymmetric => disks_except(n, parity),
        Layout::RightAsymmetric =>
            if row % 2 == 1 {
                disks_except(n, parity).reverse()
            } else {
                disks_except(n, parity)
            },
    }
}

proof fn lemma_mod_wrap(x: int, n: int)
    requires
        0 < n,
        0 <= x < 2 * n,
    ensures
        x % n == if x < n { x } else { x - n },
{
    if x < n {
        vstd::arithmetic::div_mod::lemma_small_mod(x as nat, n as nat);
    } else {
        vstd::arithmetic::div_mod::lemma_small_mod((x - n) as nat, n as nat);
        vstd::arithmetic::div_mod::lemma_mod_sub_multiples_vanish(x, n);
    }
}

proof fn lemma_disks_except(n: nat, parity: nat)
    requires
        n <= usize::MAX,
    ensures
        forall|k: int| 0 <= k < disks_except(n, parity).len() ==> {
            &&& #[trigger] disks_except(n, parity)[k] < n
            &&& disks_except(n, parity)[k] != parity
        },
        forall|j: int, k: int| 0 <= j < k < disks_except(n, parity).len() ==>
            disks_except(n, parity)[j] < disks_except(n, parity)[k],
        disks_except(n, parity).len() == if parity < n { (n - 1) as nat } else { n },
    decreases n,
{
    if n > 0 {
        let prev = disks_except((n - 1) as nat, parity);
        lemma_disks_except((n - 1) as nat, parity);
        if n - 1 != parity {
            let cur = prev.push((n - 1) as usize);
            assert(cur == disks_except(n, parity));
            assert forall|k: int| 0 <= k < cur.len() implies #[trigger] cur[k] < n && cur[k] != parity by {
                if k < prev.len() {
                    assert(cur[k] == prev[k]);
                }
            }
            assert forall|j: int, k: int| 0 <= j < k < cur.len() implies cur[j] < cur[k] by {
                assert(cur[j] == prev[j]);
                if k < prev.len() {
                    assert(cur[k] == prev[k]);
                }
            }
        }
    }
}

fn asymmetric_order(n: usize, parity: usize, reversed: bool) -> (disks: Vec<usize>)
    ensures
        disks@ == if reversed { disks_except(n as nat, parity as nat).reverse() } else { disks_except(n as nat, parity as nat) },
{
    let mut disks: Vec<usize> = Vec::new();
    let mut d: usize = 0;
    while d < n
        invariant
            d <= n,
            disks@ == disks_except(d as nat, parity as nat),
        decreases n - d,
    {
        if d != parity {
            disks.push(d);
        }
        d = d + 1;
    }
    if reversed {
        let mut rev: Vec<usize> = Vec::new();
        let mut i: usize = disks.len();
        while i > 0
            invariant
                i <= disks@.len(),
                rev@ =~= disks@.subrange(i as int, disks@.len() as int).reverse(),
            decreases i,
        {
            i = i - 1;
            rev.push(disks[i]);
            assert(disks@.subrange(i as int, disks@.len() as int).reverse() =~=
                disks@.subrange(i + 1, disks@.len() as int).reverse().push(disks@[i as int]));
        }
        assert(disks@.subrange(0, disks@.len() as int) =~= disks@);
        rev
    } else {
        disks
    }
}

/// The data-disk order of row `row` of an array of `disk_count` disks with
/// parity on disk `parity`, for the layout that `layout` names; an error when
/// `layout` names no RAID-5 layout.
pub fn data_disk_order(row: usize, disk_count: usize, parity: usize, layout: &str) -> (r: Result<Vec<usize>, String>)
    requires
        disk_count > 0,
        spec_layout(layout@) == Some(Layout::LeftSymmetric) || spec_layout(layout@) == Some(Layout::RightSymmetric)
            ==> parity < usize::MAX,
    ensures
        match spec_layout(layout@) {
            Some(l) => r is Ok && r->Ok_0@ == spec_data_disks(row as nat, disk_count as nat, parity as nat, l),
            None => r is Err && r->Err_0@ == unsupported_layout_msg(layout@),
        },
{
    let n = disk_count;
    let mut disks: Vec<usize> = Vec::with_capacity(disk_count - 1);
    match parse_layout(layout) {
        Some(Layout::LeftSymmetric) | Some(Layout::RightSymmetric) => {
            let mut disk = (parity + 1) % n;
            while disks.len() < n - 1
                invariant
                    0 < n,
                    parity < usize::MAX,
                    disks@.len() <= n - 1,
                    disk as int == (parity + 1 + disks@.len()) % (n as int),
                    disks@ =~= Seq::new(disks@.len(), |k: int| ((parity + 1 + k) % (n as int)) as usize),
                decreases n - 1 - disks@.len(),
            {
                let ghost len = disks@.len();
                proof {
                    let p1 = (parity + 1) % (n as int);
                    vstd::arithmetic::div_mod::lemma_add_mod_noop(parity + 1, len as int, n as int);
                    vstd::arithmetic::div_mod::lemma_mod_bound(parity + 1, n as int);
                    lemma_mod_wrap(p1 + len, n as int);
                    if parity < n {
                        lemma_mod_wrap(parity + 1, n as int);
                    }
                }
                if disk != parity {
                    disks.push(disk);
                }
                proof {
                    vstd::arithmetic::div_mod::lemma_add_mod_noop(parity + 1 + len, 1, n as int);
                    vstd::arithmetic::div_mod::lemma_small_mod(1, n as nat);
                    vstd::arithmetic::div_mod::lemma_mod_bound(parity + 1 + len, n as int);
                    lemma_mod_wrap((parity + 1 + len) % (n as int) + 1, n as int);
                }
                disk = (disk + 1) % n;
            }
        },
        Some(Layout::LeftAsymmetric) => {
            disks = asymmetric_order(n, parity, false);
        },
        Some(Layout::RightAsymmetric) => {
            disks = asymmetric_order(n, parity, row % 2 == 1);
        },
        None => {
            return Err(unsupported_layout_error(layout));
        },
    }
    Ok(disks)
}


/// In every row, whatever the layout, the data disks are `n - 1` distinct
/// disks of the array and none of them is the parity disk: together with
/// the parity disk they cover each disk of the row exactly once.
pub proof fn lemma_data_disks_cover_row(row: nat, n: nat, parity: nat, layout: Layout)
    requires
        0 < n <= usize::MAX,
        parity < n,
    ensures
        spec_data_disks(row, n, parity, layout).len() == n - 1,
        forall|k: int| 0 <= k < n - 1 ==> {
            &&& #[trigger] spec_data_disks(row, n, parity, layout)[k] < n
            &&& spec_data_disks(row, n, parity, layout)[k] != parity
        },
        forall|j: int, k: int| 0 <= j < n - 1 && 0 <= k < n - 1 && j != k ==>
            spec_data_disks(row, n, parity, layout)[j] != spec_data_disks(row, n, parity, layout)[k],
{
    let d = spec_data_disks(row, n, parity, layout);
    match layout {
        Layout::LeftSymmetric | Layout::RightSymmetric => {
            assert forall|k: int| 0 <= k < n - 1 implies #[trigger] d[k] < n && d[k] != parity by {
                lemma_mod_wrap(parity + 1 + k, n as int);
            }
            assert forall|j: int, k: int| 0 <= j < n - 1 && 0 <= k < n - 1 && j != k implies d[j] != d[k] by {
                lemma_mod_wrap(parity + 1 + j, n as int);
                lemma_mod_wrap(parity + 1 + k, n as int);
            }
        },
        Layout::LeftAsymmetric | Layout::RightAsymmetric => {
            let e = disks_except(n, parity);
            lemma_disks_except(n, parity);
            assert forall|k: int| 0 <= k < n - 1 implies #[trigger] d[k] < n && d[k] != parity by {
                if d =~= e.reverse() {
                    assert(d[k] == e[e.len() - 1 - k]);
                }
            }
            assert forall|j: int, k: int| 0 <= j < n - 1 && 0 <= k < n - 1 && j != k implies d[j] != d[k] by {
                if d =~= e.reverse() {
                    assert(d[j] == e[e.len() - 1 - j]);
                    assert(d[k] == e[e.len() - 1 - k]);
                    if j < k {
                        assert(e[e.len() - 1 - k] < e[e.len() - 1 - j]);
                    } else {
                        assert(e[e.len() - 1 - j] < e[e.len() - 1 - k]);
                    }
                } else {
                    if j < k {
                        assert(e[j] < e[k]);
                    } else {
                        assert(e[k] < e[j]);
                    }
                }
            }
        },
    }
}


proof fn lemma_disks_except_index(n: nat, parity: nat)
    requires
        n <= usize::MAX,
    ensures
        disks_except(n, parity).len() == if parity < n { (n - 1) as nat } else { n },
        forall|k: int| 0 <= k < disks_except(n, parity).len() ==>
            #[trigger] disks_except(n, parity)[k] == if k < parity { k } else { k + 1 },
    decreases n,
{
    if n > 0 {
        let prev = disks_except((n - 1) as nat, parity);
        lemma_disks_except_index((n - 1) as nat, parity);
        if n - 1 != parity {
            let cur = prev.push((n - 1) as usize);
            assert(cur == disks_except(n, parity));
            assert forall|k: int| 0 <= k < cur.len() implies #[trigger] cur[k] == if k < parity { k } else { k + 1 } by {
                if k < prev.len() {
                    assert(cur[k] == prev[k]);
                }
            }
        }
    }
}

/// In the asymmetric layouts the data disks of a row are the disks other
/// than the parity disk in increasing order (the `k`-th is disk `k` below
/// the parity disk and disk `k + 1` from it on); right-asymmetric takes them
/// in reverse order on odd rows, whichever disk holds parity.
pub proof fn lemma_asymmetric_data_disks(row: nat, n: nat, parity: nat, layout: Layout)
    requires
        0 < n <= usize::MAX,
        parity < n,
        layout == Layout::LeftAsymmetric || layout == Layout::RightAsymmetric,
    ensures
        spec_data_disks(row, n, parity, layout).len() == n - 1,
        forall|k: int| 0 <= k < n - 1 ==> {
            let j = if layout == Layout::RightAsymmetric && row % 2 == 1 { n - 2 - k } else { k };
            #[trigger] spec_data_disks(row, n, parity, layout)[k] == if j < parity { j } else { j + 1 }
        },
{
    lemma_disks_except_index(n, parity);
    let e = disks_except(n, parity);
    let d = spec_data_disks(row, n, parity, layout);
    assert forall|k: int| 0 <= k < n - 1 implies {
        let j = if layout == Layout::RightAsymmetric && row % 2 == 1 { n - 2 - k } else { k };
        #[trigger] d[k] == if j < parity { j } else { j + 1 }
    } by {
        if layout == Layout::RightAsymmetric && row % 2 == 1 {
            assert(d =~= e.reverse());
            assert(d[k] == e[e.len() - 1 - k]);
        } else {
            assert(d == e);
        }
    }
}

/// In a RAID-0 plan, stripe `k` of row `row` is read from the `k`-th image
/// of the disk order, at byte `row * stripe_size`: each row takes one
/// stripe of every disk, in the order given.
pub proof fn lemma_raid0_row_follows_order(plan: AssemblyPlan, row: nat)
    requires
        plan is Raid0,
    ensures
        plan.spec_row_sources(row) matches Ok(s) && s.len() == plan.spec_order().len()
            && forall|k: int| 0 <= k < s.len() ==> #[trigger] s[k] == (BlockSource::Image {
                image: plan.spec_order()[k],
                offset: (row * plan.spec_stripe_size()) as u64,
            }),
{
}

/// A disk order that names every disk exactly once is used as given.
pub proof fn lemma_disk_order_kept(o: Seq<usize>, n: nat)
    requires
        is_disk_order(o, n),
    ensures
        spec_normalized_order(Some(o), n) == Ok::<Seq<usize>, Seq<char>>(o),
{
    lemma_no_bad_entry_is_order(o, n);
}

/// The identity disk order `0, 1, ..., n - 1`.
pub open spec fn identity_order(n: nat) -> Seq<usize> {
    Seq::new(n, |i: int| i as usize)
}

/// A disk order for `n` disks names each disk `0..n` exactly once.
pub open spec fn is_disk_order(o: Seq<usize>, n: nat) -> bool {
    &&& o.len() == n
    &&& forall|i: int| 0 <= i < o.len() ==> #[trigger] o[i] < n
    &&& forall|i: int, j: int| 0 <= i < j < o.len() ==> o[i] != o[j]
}

/// Entry `i` of `o` is out of range, or repeats an earlier entry.
pub open spec fn order_entry_bad(o: Seq<usize>, n: nat, i: int) -> bool {
    o[i] >= n || exists|j: int| 0 <= j < i && o[j] == o[i]
}

/// The first entry at or after `i` that is out of range or repeated.
pub open spec fn first_bad_entry(o: Seq<usize>, n: nat, i: nat) -> Option<nat>
    decreases o.len() - i,
{
    if i >= o.len() {
        None
    } else if order_entry_bad(o, n, i as int) {
        Some(i)
    } else {
        first_bad_entry(o, n, i + 1)
    }
}

/// The disk order held in `order`, if one was given.
pub open spec fn order_view(order: Option<Vec<usize>>) -> Option<Seq<usize>> {
    match order {
        Some(o) => Some(o@),
        None => None,
    }
}

/// The order the user gave, or the identity order when none was given.
pub open spec fn order_or_identity(order: Option<Seq<usize>>, n: nat) -> Seq<usize> {
    match order {
        Some(o) => o,
        None => identity_order(n),
    }
}

/// What checking a disk order for `n` disks gives: the order itself, or the
/// error for the wrong length, or for the first entry that is out of range
/// or repeated.
pub open spec fn spec_normalized_order(order: Option<Seq<usize>>, n: nat) -> Result<Seq<usize>, Seq<char>> {
    let o = order_or_identity(order, n);
    if o.len() != n {
        Err("order must contain "@ + decimal(n) + " entries"@)
    } else {
        match first_bad_entry(o, n, 0) {
            Some(i) => if o[i as int] >= n {
                Err("disk order entry "@ + decimal(o[i as int] as nat) + " is out of range"@)
            } else {
                Err("disk order entry "@ + decimal(o[i as int] as nat) + " is duplicated"@)
            },
            None => Ok(o),
        }
    }
}

proof fn lemma_first_bad_none(o: Seq<usize>, n: nat, i: nat)
    requires
        i <= o.len(),
    ensures
        first_bad_entry(o, n, i) is None <==> forall|k: int| i <= k < o.len() ==> !order_entry_bad(o, n, k),
    decreases o.len() - i,
{
    if i < o.len() {
        lemma_first_bad_none(o, n, i + 1);
    }
}

proof fn lemma_no_bad_entry_is_order(o: Seq<usize>, n: nat)
    requires
        o.len() == n,
    ensures
        first_bad_entry(o, n, 0) is None <==> is_disk_order(o, n),
{
    lemma_first_bad_none(o, n, 0);
    if first_bad_entry(o, n, 0) is None {
        assert forall|i: int| 0 <= i < o.len() implies #[trigger] o[i] < n by {
            assert(!order_entry_bad(o, n, i));
        }
        assert forall|i: int, j: int| 0 <= i < j < o.len() implies o[i] != o[j] by {
            assert(!order_entry_bad(o, n, j));
        }
        assert(is_disk_order(o, n));
    }
    if is_disk_order(o, n) {
        assert forall|k: int| 0 <= k < o.len() implies !order_entry_bad(o, n, k) by {
            assert(o[k] < n);
            assert forall|j: int| 0 <= j < k implies o[j] != o[k] by {}
        }
    }
}

fn order_error(prefix: &str, value: usize, suffix: &str) -> (e: String)
    ensures
        e@ == prefix@ + decimal(value as nat) + suffix@,
{
    let digits = usize_to_string(value);
    concat3(prefix, digits.as_str(), suffix)
}

/// Checks a disk order for `disk_count` disks; with no order given, the
/// identity order is used. The order is returned when it names every disk
/// exactly once; otherwise the error says what is wrong with it.
pub fn normalized_order(order: Option<Vec<usize>>, disk_count: usize) -> (r: Result<Vec<usize>, String>)
    ensures
        match r {
            Ok(v) => spec_normalized_order(order_view(order), disk_count as nat) == Ok::<Seq<usize>, Seq<char>>(v@),
            Err(e) => spec_normalized_order(order_view(order), disk_count as nat) == Err::<Seq<usize>, Seq<char>>(e@),
        },
        r is Ok <==> is_disk_order(order_or_identity(order_view(order), disk_count as nat), disk_count as nat),
{
    let ghost given = order_view(order);
    let order = match order {
        Some(o) => o,
        None => {
            let mut o: Vec<usize> = Vec::new();
            let mut i: usize = 0;
            while i < disk_count
                invariant
                    i <= disk_count,
                    o@ =~= identity_order(i as nat),
                decreases disk_count - i,
            {
                o.push(i);
                i = i + 1;
            }
            o
        },
    };
    let ghost o = order@;
    assert(o == order_or_identity(given, disk_count as nat));
    if order.len() != disk_count {
        return Err(order_error("order must contain ", disk_count, " entries"));
    }
    proof {
        lemma_no_bad_entry_is_order(o, disk_count as nat);
    }
    match check_order_entries(&order, disk_count) {
        Ok(()) => Ok(order),
        Err(e) => Err(e),
    }
}

fn check_order_entries(order: &Vec<usize>, disk_count: usize) -> (r: Result<(), String>)
    requires
        order@.len() == disk_count,
    ensures
        match first_bad_entry(order@, disk_count as nat, 0) {
            Some(i) => r is Err && r->Err_0@ == (if order@[i as int] >= disk_count {
                "disk order entry "@ + decimal(order@[i as int] as nat) + " is out of range"@
            } else {
                "disk order entry "@ + decimal(order@[i as int] as nat) + " is duplicated"@
            }),
            None => r is Ok,
        },
{
    let ghost o = order@;
    let mut seen: Vec<bool> = vec![false; disk_count];
    let mut i: usize = 0;
    while i < order.len()
        invariant
            o == order@,
            o.len() == disk_count,
            i <= o.len(),
            seen@.len() == disk_count,
            forall|d: int| 0 <= d < disk_count ==> (#[trigger] seen@[d] <==> exists|j: int| 0 <= j < i && o[j] == d),
            first_bad_entry(o, disk_count as nat, 0) == first_bad_entry(o, disk_count as nat, i as nat),
        decreases o.len() - i,
    {
        let disk = order[i];
        if disk >= disk_count {
            assert(order_entry_bad(o, disk_count as nat, i as int));
            return Err(order_error("disk order entry ", disk, " is out of range"));
        }
        if seen[disk] {
            assert(order_entry_bad(o, disk_count as nat, i as int));
            return Err(order_error("disk order entry ", disk, " is duplicated"));
        }
        assert(!order_entry_bad(o, disk_count as nat, i as int));
        seen.set(disk, true);
        assert forall|d: int| 0 <= d < disk_count implies (#[trigger] seen@[d] <==> exists|j: int| 0 <= j < i + 1 && o[j] == d) by {
            if d == disk {
                assert(o[i as int] == d);
            }
        }
        i = i + 1;
    }
    Ok(())
}


/// The image that holds logical disk `disk` when disk `missing` is absent:
/// the images are the surviving disks in order, so disks after the missing
/// one shift down by one.
pub open spec fn spec_available_slot(disk: nat, missing: nat) -> Option<usize> {
    if disk == missing {
        None
    } else if disk < missing {
        Some(disk as usize)
    } else {
        Some((disk - 1) as usize)
    }
}

/// For each disk `0..full_disk_count` of the complete array, the image that
/// holds it, or `None` for the missing disk.
pub fn available_disk_map(full_disk_count: usize, missing_disk: usize) -> (out: Vec<Option<usize>>)
    ensures
        out@.len() == full_disk_count,
        forall|d: int| 0 <= d < full_disk_count ==> #[trigger] out@[d] == spec_available_slot(d as nat, missing_disk as nat),
{
    let mut out: Vec<Option<usize>> = Vec::new();
    let mut image_idx: usize = 0;
    let mut disk: usize = 0;
    while disk < full_disk_count
        invariant
            disk <= full_disk_count,
            out@.len() == disk,
            image_idx == if disk <= missing_disk { disk } else { (disk - 1) as usize },
            forall|d: int| 0 <= d < disk ==> #[trigger] out@[d] == spec_available_slot(d as nat, missing_disk as nat),
        decreases full_disk_count - disk,
    {
        if disk == missing_disk {
            out.push(None);
        } else {
            out.push(Some(image_idx));
            image_idx = image_idx + 1;
        }
        disk = disk + 1;
    }
    out
}

/// The disk of the complete array that image `image` holds when disk
/// `missing` is absent.
pub open spec fn disk_of_image(image: nat, missing: nat) -> nat {
    if image < missing {
        image
    } else {
        image + 1
    }
}

/// With one disk missing from a complete array of `full` disks, the
/// surviving disks are matched one to one with the `full - 1` images.
pub proof fn lemma_available_slots_match_images(full: nat, missing: nat)
    requires
        missing < full <= usize::MAX,
    ensures
        forall|d: int| 0 <= d < full && d != missing ==> {
            &&& #[trigger] spec_available_slot(d as nat, missing) is Some
            &&& spec_available_slot(d as nat, missing)->0 < full - 1
        },
        forall|d: int, e: int| 0 <= d < full && 0 <= e < full && d != missing && e != missing && d != e
            ==> #[trigger] spec_available_slot(d as nat, missing) != #[trigger] spec_available_slot(e as nat, missing),
        forall|i: int| 0 <= i < full - 1 ==> {
            &&& #[trigger] disk_of_image(i as nat, missing) < full
            &&& disk_of_image(i as nat, missing) != missing
            &&& spec_available_slot(disk_of_image(i as nat, missing), missing) == Some(i as usize)
        },
{
}

/// The XOR of the stripes read from the surviving disks at one offset, over
/// `stripe_size` bytes; a short stripe (read near the end of an image)
/// contributes only the bytes it has.
pub fn xor_available_blocks(blocks: &Vec<Vec<u8>>, stripe_size: usize) -> (acc: Vec<u8>)
    requires
        forall|k: int| 0 <= k < blocks@.len() ==> #[trigger] blocks@[k]@.len() <= stripe_size,
    ensures
        acc@ == xor_rows(vec_views(blocks@), stripe_size as nat),
{
    let ghost rows = vec_views(blocks@);
    let mut acc: Vec<u8> = vec![0u8; stripe_size];
    assert(acc@ =~= xor_rows(rows.take(0), stripe_size as nat));
    let mut k: usize = 0;
    while k < blocks.len()
        invariant
            rows == vec_views(blocks@),
            k <= blocks@.len(),
            acc@.len() == stripe_size,
            acc@ == xor_rows(rows.take(k as int), stripe_size as nat),
            forall|j: int| 0 <= j < blocks@.len() ==> #[trigger] blocks@[j]@.len() <= stripe_size,
        decreases blocks@.len() - k,
    {
        proof {
            lemma_xor_rows_step(rows, k as int, stripe_size as nat);
        }
        xor_into(acc.as_mut_slice(), blocks[k].as_slice());
        k = k + 1;
    }
    assert(rows.take(k as int) =~= rows);
    acc
}

/// When the stripes of all disks at one offset, the missing disk's among
/// them, form a parity row of `stripe_size`-byte stripes, the XOR of the
/// surviving stripes is exactly the missing disk's stripe.
pub proof fn lemma_rebuild_recovers_missing_stripe(stripes: Seq<Seq<u8>>, missing: int, stripe_size: nat)
    requires
        is_parity_row(stripes),
        stripes[0].len() == stripe_size,
        0 <= missing < stripes.len(),
    ensures
        xor_rows(stripes.remove(missing), stripe_size) == stripes[missing],
{
    lemma_parity_row_rebuilds_block(stripes, missing);
}


/// Where one stripe of the logical volume comes from.
pub enum BlockSource {
    /// `stripe_size` bytes of image `image`, starting at byte `offset`.
    Image { image: usize, offset: u64 },
    /// The stripe of the missing disk at byte `offset`, rebuilt as the XOR of
    /// the stripes of every image at that offset.
    Rebuild { offset: u64 },
}

/// How to build the logical volume from the images.
pub enum AssemblyPlan {
    /// RAID-1: the volume is a copy of image `image`.
    Mirror { image: usize },
    /// RAID-0: each row holds one stripe of every disk, in `order`.
    Raid0 { stripe_size: usize, volume_size: u64, order: Vec<usize> },
    /// RAID-5 with every disk present: each row holds the data stripes, in
    /// the order that `layout` gives, of the disks `order` names.
    Raid5 { stripe_size: usize, volume_size: u64, order: Vec<usize>, layout: String },
    /// RAID-5 with disk `missing` of the complete array absent; `available`
    /// maps each disk of the complete array to the image holding it.
    Raid5Missing {
        stripe_size: usize,
        volume_size: u64,
        order: Vec<usize>,
        layout: String,
        missing: usize,
        available: Vec<Option<usize>>,
    },
}

/// The source of a stripe of RAID-5 data disk `disk` (a disk of the
/// complete array, already mapped through the disk order).
pub open spec fn raid5_source(disk: usize, missing: Option<usize>, available: Seq<Option<usize>>, offset: u64) -> BlockSource {
    match missing {
        Some(m) => if disk == m {
            BlockSource::Rebuild { offset }
        } else {
            BlockSource::Image { image: available[disk as int]->0, offset }
        },
        None => BlockSource::Image { image: disk, offset },
    }
}

/// The stripes of row `row` of a RAID-5 array with disk order `order`.
pub open spec fn raid5_row(
    row: nat,
    stripe_size: nat,
    order: Seq<usize>,
    layout: Seq<char>,
    missing: Option<usize>,
    available: Seq<Option<usize>>,
) -> Result<Seq<BlockSource>, Seq<char>> {
    match spec_layout(layout) {
        None => Err(unsupported_layout_msg(layout)),
        Some(l) => {
            let n = order.len();
            let data = spec_data_disks(row, n, spec_parity_disk(row, n, l), l);
            let offset = (row * stripe_size) as u64;
            Ok(Seq::new(data.len(), |k: int| raid5_source(order[data[k] as int], missing, available, offset)))
        },
    }
}

impl AssemblyPlan {
    /// The plan's internal consistency: disk orders name each disk once and,
    /// with a disk missing, `available` is the map of the surviving disks.
    pub open spec fn well_formed(&self) -> bool {
        match self {
            AssemblyPlan::Mirror { .. } => true,
            AssemblyPlan::Raid0 { order, .. } => is_disk_order(order@, order@.len()),
            AssemblyPlan::Raid5 { order, .. } => order@.len() > 0 && is_disk_order(order@, order@.len()),
            AssemblyPlan::Raid5Missing { order, missing, available, .. } => {
                &&& is_disk_order(order@, order@.len())
                &&& missing < order@.len()
                &&& available@.len() == order@.len()
                &&& forall|d: int| 0 <= d < order@.len() ==> #[trigger] available@[d] == spec_available_slot(d as nat, *missing as nat)
            },
        }
    }

    /// The stripe size of a striped plan (0 for a mirror).
    pub open spec fn spec_stripe_size(&self) -> usize {
        match self {
            AssemblyPlan::Mirror { .. } => 0,
            AssemblyPlan::Raid0 { stripe_size, .. } => *stripe_size,
            AssemblyPlan::Raid5 { stripe_size, .. } => *stripe_size,
            AssemblyPlan::Raid5Missing { stripe_size, .. } => *stripe_size,
        }
    }

    /// How many images the plan reads from: the disks of the order, less the
    /// missing one; one image for a mirror.
    pub open spec fn image_count(&self) -> nat {
        match self {
            AssemblyPlan::Mirror { .. } => 1,
            AssemblyPlan::Raid0 { order, .. } => order@.len(),
            AssemblyPlan::Raid5 { order, .. } => order@.len(),
            AssemblyPlan::Raid5Missing { order, .. } => (order@.len() - 1) as nat,
        }
    }

    /// The disk order of a striped plan (empty for a mirror).
    pub open spec fn spec_order(&self) -> Seq<usize> {
        match self {
            AssemblyPlan::Mirror { .. } => Seq::empty(),
            AssemblyPlan::Raid0 { order, .. } => order@,
            AssemblyPlan::Raid5 { order, .. } => order@,
            AssemblyPlan::Raid5Missing { order, .. } => order@,
        }
    }

    /// The layout name of a RAID-5 plan (empty otherwise).
    pub open spec fn spec_layout_name(&self) -> Seq<char> {
        match self {
            AssemblyPlan::Raid5 { layout, .. } => layout@,
            AssemblyPlan::Raid5Missing { layout, .. } => layout@,
            _ => Seq::empty(),
        }
    }

    /// The missing disk of a plan that rebuilds one (0 otherwise).
    pub open spec fn spec_missing(&self) -> usize {
        match self {
            AssemblyPlan::Raid5Missing { missing, .. } => *missing,
            _ => 0,
        }
    }

    /// The number of full rows of stripes that fit in the smallest image
    /// (none for a mirror, which is copied whole).
    pub open spec fn spec_row_count(&self) -> nat {
        match self {
            AssemblyPlan::Mirror { .. } => 0,
            AssemblyPlan::Raid0 { stripe_size, volume_size, .. } => ((*volume_size as usize) / *stripe_size) as nat,
            AssemblyPlan::Raid5 { stripe_size, volume_size, .. } => ((*volume_size as usize) / *stripe_size) as nat,
            AssemblyPlan::Raid5Missing { stripe_size, volume_size, .. } => ((*volume_size as usize) / *stripe_size) as nat,
        }
    }

    /// The stripes of row `row` of the logical volume, in order.
    pub open spec fn spec_row_sources(&self, row: nat) -> Result<Seq<BlockSource>, Seq<char>> {
        match self {
            AssemblyPlan::Mirror { .. } => Ok(Seq::empty()),
            AssemblyPlan::Raid0 { stripe_size, order, .. } => Ok(Seq::new(
                order@.len(),
                |k: int| BlockSource::Image { image: order@[k], offset: (row * *stripe_size) as u64 },
            )),
            AssemblyPlan::Raid5 { stripe_size, order, layout, .. } =>
                raid5_row(row, *stripe_size as nat, order@, layout@, None, Seq::empty()),
            AssemblyPlan::Raid5Missing { stripe_size, order, layout, missing, available, .. } =>
                raid5_row(row, *stripe_size as nat, order@, layout@, Some(*missing), available@),
        }
    }

    /// The stripe size of a striped plan (0 for a mirror).
    pub fn stripe_size(&self) -> (s: usize)
        ensures
            s == self.spec_stripe_size(),
    {
        match self {
            AssemblyPlan::Mirror { .. } => 0,
            AssemblyPlan::Raid0 { stripe_size, .. } => *stripe_size,
            AssemblyPlan::Raid5 { stripe_size, .. } => *stripe_size,
            AssemblyPlan::Raid5Missing { stripe_size, .. } => *stripe_size,
        }
    }

    /// How many rows of stripes the logical volume has.
    pub fn row_count(&self) -> (rows: usize)
        requires
            !(self is Mirror) ==> self.spec_stripe_size() > 0,
        ensures
            rows == self.spec_row_count(),
    {
        match self {
            AssemblyPlan::Mirror { .. } => 0,
            AssemblyPlan::Raid0 { stripe_size, volume_size, .. } => (*volume_size as usize) / *stripe_size,
            AssemblyPlan::Raid5 { stripe_size, volume_size, .. } => (*volume_size as usize) / *stripe_size,
            AssemblyPlan::Raid5Missing { stripe_size, volume_size, .. } => (*volume_size as usize) / *stripe_size,
        }
    }

    /// The stripes that make up row `row` of the logical volume, in order;
    /// an error when the RAID-5 layout is not one of the four known ones.
    pub fn row_sources(&self, row: usize) -> (r: Result<Vec<BlockSource>, String>)
        requires
            self.well_formed(),
            row * self.spec_stripe_size() <= usize::MAX,
        ensures
            match r {
                Ok(v) => self.spec_row_sources(row as nat) == Ok::<Seq<BlockSource>, Seq<char>>(v@),
                Err(e) => self.spec_row_sources(row as nat) == Err::<Seq<BlockSource>, Seq<char>>(e@),
            },
    {
        match self {
            AssemblyPlan::Mirror { .. } => Ok(Vec::new()),
            AssemblyPlan::Raid0 { stripe_size, order, .. } => {
                let offset = (row * *stripe_size) as u64;
                let mut out: Vec<BlockSource> = Vec::new();
                let mut k: usize = 0;
                while k < order.len()
                    invariant
                        k <= order@.len(),
                        offset == (row * *stripe_size) as u64,
                        out@ =~= Seq::new(k as nat, |j: int| BlockSource::Image { image: order@[j], offset: offset }),
                    decreases order@.len() - k,
                {
                    out.push(BlockSource::Image { image: order[k], offset });
                    k = k + 1;
                }
                Ok(out)
            },
            AssemblyPlan::Raid5 { stripe_size, order, layout, .. } => {
                let empty: Vec<Option<usize>> = Vec::new();
                raid5_row_sources(row, *stripe_size, order, layout.as_str(), None, &empty)
            },
            AssemblyPlan::Raid5Missing { stripe_size, order, layout, missing, available, .. } => {
                raid5_row_sources(row, *stripe_size, order, layout.as_str(), Some(*missing), available)
            },
        }
    }
}

/// Every stripe a plan reads comes from one of its images: the image named
/// is below the plan's image count, in every row.
pub proof fn lemma_row_sources_name_existing_images(plan: AssemblyPlan, row: nat)
    requires
        plan.well_formed(),
    ensures
        plan.spec_row_sources(row) matches Ok(v) ==> forall|k: int| 0 <= k < v.len() ==>
            (#[trigger] v[k] matches BlockSource::Image { image, .. } ==> image < plan.image_count()),
{
    match plan {
        AssemblyPlan::Mirror { .. } => {},
        AssemblyPlan::Raid0 { .. } => {},
        AssemblyPlan::Raid5 { order, layout, .. } => {
            if let Some(l) = spec_layout(layout@) {
                let n = order@.len();
                assert(order.len() == n);
                lemma_parity_disk_in_range(row, n, l);
                lemma_data_disks_cover_row(row, n, spec_parity_disk(row, n, l), l);
            }
        },
        AssemblyPlan::Raid5Missing { order, layout, missing, .. } => {
            if let Some(l) = spec_layout(layout@) {
                let n = order@.len();
                assert(order.len() == n);
                lemma_parity_disk_in_range(row, n, l);
                lemma_data_disks_cover_row(row, n, spec_parity_disk(row, n, l), l);
                lemma_available_slots_match_images(n, missing as nat);
                let data = spec_data_disks(row, n, spec_parity_disk(row, n, l), l);
                assert forall|k: int| 0 <= k < data.len() implies order@[data[k] as int] < n by {
                    assert(data[k] < n);
                }
            }
        },
    }
}

fn raid5_row_sources(
    row: usize,
    stripe_size: usize,
    order: &Vec<usize>,
    layout: &str,
    missing: Option<usize>,
    available: &Vec<Option<usize>>,
) -> (r: Result<Vec<BlockSource>, String>)
    requires
        order@.len() > 0,
        is_disk_order(order@, order@.len()),
        row * stripe_size <= usize::MAX,
        missing is Some ==> {
            &&& missing->0 < order@.len()
            &&& available@.len() == order@.len()
            &&& forall|d: int| 0 <= d < order@.len() ==> #[trigger] available@[d] == spec_available_slot(d as nat, missing->0 as nat)
        },
    ensures
        match r {
            Ok(v) => raid5_row(row as nat, stripe_size as nat, order@, layout@, missing, available@) == Ok::<Seq<BlockSource>, Seq<char>>(v@),
            Err(e) => raid5_row(row as nat, stripe_size as nat, order@, layout@, missing, available@) == Err::<Seq<BlockSource>, Seq<char>>(e@),
        },
{
    let n = order.len();
    let parity = match parity_disk(row, n, layout) {
        Ok(p) => p,
        Err(e) => return Err(e),
    };
    let ghost l = spec_layout(layout@)->0;
    proof {
        lemma_parity_disk_in_range(row as nat, n as nat, l);
    }
    let data = match data_disk_order(row, n, parity, layout) {
        Ok(d) => d,
        Err(e) => return Err(e),
    };
    proof {
        lemma_data_disks_cover_row(row as nat, n as nat, parity as nat, l);
    }
    let offset = (row * stripe_size) as u64;
    let mut out: Vec<BlockSource> = Vec::new();
    let mut k: usize = 0;
    while k < data.len()
        invariant
            n == order@.len(),
            data@ == spec_data_disks(row as nat, n as nat, parity as nat, l),
            data@.len() == n - 1,
            forall|j: int| 0 <= j < n - 1 ==> #[trigger] data@[j] < n,
            k <= data@.len(),
            missing is Some ==> {
                &&& available@.len() == order@.len()
                &&& missing->0 < order@.len()
                &&& forall|d: int| 0 <= d < order@.len() ==> #[trigger] available@[d] == spec_available_slot(d as nat, missing->0 as nat)
            },
            forall|j: int| 0 <= j < order@.len() ==> #[trigger] order@[j] < n,
            out@ =~= Seq::new(k as nat, |j: int| raid5_source(order@[data@[j] as int], missing, available@, offset)),
        decreases data@.len() - k,
    {
        let physical = order[data[k]];
        let source = match missing {
            Some(m) => {
                if physical == m {
                    BlockSource::Rebuild { offset }
                } else {
                    match available[physical] {
                        Some(image) => BlockSource::Image { image, offset },
                        None => return Err(String::from_str("internal available disk map error")),
                    }
                }
            },
            None => BlockSource::Image { image: physical, offset },
        };
        out.push(source);
        k = k + 1;
    }
    Ok(out)
}

/// The error for a RAID level that cannot be assembled.
pub open spec fn unsupported_raid_msg(raid: Seq<char>) -> Seq<char> {
    "unsupported assemble RAID type '"@ + raid + "'"@
}

/// The plan for assembling the logical volume of a RAID `raid` array from
/// `images`: the disk order is checked first, then the RAID level; RAID-1
/// copies the first image, RAID-0 and RAID-5 read stripes of `stripe_size`
/// bytes, RAID-5 in `layout` (left-symmetric when none is given) and only
/// from three images or more.
pub fn assemble(
    images: &ImageSet,
    raid: &str,
    stripe_size: usize,
    order: Option<Vec<usize>>,
    layout: Option<&str>,
) -> (r: Result<AssemblyPlan, String>)
    ensures
        r is Ok ==> r->Ok_0.well_formed(),
        r is Ok && !(r->Ok_0 is Mirror) ==> r->Ok_0.image_count() == images.images@.len(),
        match spec_normalized_order(order_view(order), images.images@.len() as nat) {
            Err(e) => r is Err && r->Err_0@ == e,
            Ok(o) => {
                let kind = spec_normalize_raid(raid@);
                if kind == "raid0"@ {
                    r matches Ok(AssemblyPlan::Raid0 { stripe_size: s, volume_size: v, order: ov })
                        && s == stripe_size && v == seq_min(images.sizes()) && ov@ == o
                } else if kind == "raid1"@ {
                    r == Ok::<AssemblyPlan, String>(AssemblyPlan::Mirror { image: 0 })
                } else if kind == "raid5"@ {
                    if images.images@.len() < 3 {
                        r is Err && r->Err_0@ == "RAID-5 assemble requires at least three images"@
                    } else {
                        r matches Ok(AssemblyPlan::Raid5 { stripe_size: s, volume_size: v, order: ov, layout: lv })
                            && s == stripe_size && v == seq_min(images.sizes()) && ov@ == o
                            && lv@ == match layout { Some(l) => l@, None => "left-symmetric"@ }
                    }
                } else {
                    r is Err && r->Err_0@ == unsupported_raid_msg(kind)
                }
            },
        },
{
    let n = images.images.len();
    let order = match normalized_order(order, n) {
        Ok(o) => o,
        Err(e) => return Err(e),
    };
    let kind = normalize_raid(raid);
    if str_eq(kind.as_str(), "raid0") {
        Ok(AssemblyPlan::Raid0 { stripe_size, volume_size: images.min_size(), order })
    } else if str_eq(kind.as_str(), "raid1") {
        Ok(AssemblyPlan::Mirror { image: 0 })
    } else if str_eq(kind.as_str(), "raid5") {
        if n < 3 {
            return Err(String::from_str("RAID-5 assemble requires at least three images"));
        }
        let layout = match layout {
            Some(l) => String::from_str(l),
            None => String::from_str("left-symmetric"),
        };
        Ok(AssemblyPlan::Raid5 { stripe_size, volume_size: images.min_size(), order, layout })
    } else {
        Err(concat3("unsupported assemble RAID type '", kind.as_str(), "'"))
    }
}

/// The plan for rebuilding the logical volume of a RAID-5 array whose disk
/// `missing_disk` (counted in the complete array, one disk larger than
/// `images`) is absent; its stripes are rebuilt by XOR from the others.
pub fn recover_raid5_missing(
    images: &ImageSet,
    stripe_size: usize,
    missing_disk: usize,
    order: Option<Vec<usize>>,
    layout: &str,
) -> (r: Result<AssemblyPlan, String>)
    requires
        images.images@.len() < usize::MAX,
    ensures
        r is Ok ==> r->Ok_0.well_formed(),
        r is Ok ==> r->Ok_0.image_count() == images.images@.len(),
        ({
            let full = images.images@.len() + 1;
            if missing_disk >= full {
                r is Err && r->Err_0@ == "--missing is outside the full RAID disk count"@
            } else {
                match spec_normalized_order(order_view(order), full as nat) {
                    Err(e) => r is Err && r->Err_0@ == e,
                    Ok(o) => r matches Ok(AssemblyPlan::Raid5Missing {
                        stripe_size: s, volume_size: v, order: ov, layout: lv, missing: m, available: av })
                        && s == stripe_size && v == seq_min(images.sizes()) && ov@ == o && lv@ == layout@
                        && m == missing_disk && av@.len() == full
                        && forall|d: int| 0 <= d < full ==> #[trigger] av@[d] == spec_available_slot(d as nat, missing_disk as nat),
                }
            }
        }),
{
    let full_disk_count = images.images.len() + 1;
    if missing_disk >= full_disk_count {
        return Err(String::from_str("--missing is outside the full RAID disk count"));
    }
    let order = match normalized_order(order, full_disk_count) {
        Ok(o) => o,
        Err(e) => return Err(e),
    };
    let available = available_disk_map(full_disk_count, missing_disk);
    Ok(AssemblyPlan::Raid5Missing {
        stripe_size,
        volume_size: images.min_size(),
        order,
        layout: String::from_str(layout),
        missing: missing_disk,
        available,
    })
}


/// The `stripe`-byte stripe of `disk` that starts at byte `offset`.
pub open spec fn stripe_of(disk: Seq<u8>, offset: int, stripe: nat) -> Seq<u8> {
    disk.subrange(offset, offset + stripe)
}

/// The stripe of every disk at byte `offset`, in disk order.
pub open spec fn stripes_at(disks: Seq<Seq<u8>>, offset: int, stripe: nat) -> Seq<Seq<u8>> {
    Seq::new(disks.len(), |i: int| stripe_of(disks[i], offset, stripe))
}

/// The bytes a stripe source stands for, over images whose contents are
/// `disks`: a stripe of one image, or the XOR of the stripes of all images.
pub open spec fn source_bytes(disks: Seq<Seq<u8>>, source: BlockSource, stripe: nat) -> Seq<u8> {
    match source {
        BlockSource::Image { image, offset } => stripe_of(disks[image as int], offset as int, stripe),
        BlockSource::Rebuild { offset } => xor_rows(stripes_at(disks, offset as int, stripe), stripe),
    }
}

/// The bytes of a row of stripe sources, stripe by stripe.
pub open spec fn sources_bytes(sources: Seq<BlockSource>, disks: Seq<Seq<u8>>, stripe: nat) -> Seq<Seq<u8>> {
    Seq::new(sources.len(), |k: int| source_bytes(disks, sources[k], stripe))
}

/// Recovery gives the volume that the complete array assembles to: for a
/// RAID-5 array whose stripes at each row XOR to zero, a row written from
/// the surviving images (the complete array without disk `missing`, the
/// rest in order) by a plan that rebuilds `missing` holds, stripe by stripe,
/// the same bytes as that row assembled from all disks with the same stripe
/// size, disk order and layout; an unknown layout fails both in the same way.
pub proof fn lemma_recovery_matches_full_assembly(
    full: AssemblyPlan,
    degraded: AssemblyPlan,
    disks: Seq<Seq<u8>>,
    row: nat,
)
    requires
        full is Raid5,
        degraded is Raid5Missing,
        full.well_formed(),
        degraded.well_formed(),
        full.spec_stripe_size() == degraded.spec_stripe_size(),
        full.spec_order() == degraded.spec_order(),
        full.spec_layout_name() == degraded.spec_layout_name(),
        disks.len() == full.spec_order().len(),
        full.spec_stripe_size() > 0,
        row * full.spec_stripe_size() <= usize::MAX,
        forall|i: int| 0 <= i < disks.len() ==> #[trigger] disks[i].len() >= (row + 1) * full.spec_stripe_size(),
        is_parity_row(stripes_at(disks, row * full.spec_stripe_size(), full.spec_stripe_size() as nat)),
    ensures
        match (full.spec_row_sources(row), degraded.spec_row_sources(row)) {
            (Ok(a), Ok(b)) => sources_bytes(b, disks.remove(degraded.spec_missing() as int), full.spec_stripe_size() as nat)
                == sources_bytes(a, disks, full.spec_stripe_size() as nat),
            (Err(x), Err(y)) => x == y,
            _ => false,
        },
{
    let stripe = full.spec_stripe_size() as nat;
    let order = full.spec_order();
    let layout = full.spec_layout_name();
    let m = degraded.spec_missing();
    let n = order.len();
    let off = row * stripe;
    let avail = match degraded {
        AssemblyPlan::Raid5Missing { available, .. } => available@,
        _ => Seq::empty(),
    };
    assert(full.spec_row_sources(row) == raid5_row(row, stripe, order, layout, None, Seq::empty()));
    assert(degraded.spec_row_sources(row) == raid5_row(row, stripe, order, layout, Some(m), avail));
    if let Some(l) = spec_layout(layout) {
        match full {
            AssemblyPlan::Raid5 { order: o, .. } => {
                assert(o.len() == n);
            },
            _ => {},
        }
        let parity = spec_parity_disk(row, n, l);
        lemma_parity_disk_in_range(row, n, l);
        lemma_data_disks_cover_row(row, n, parity, l);
        let data = spec_data_disks(row, n, parity, l);
        let a = Seq::new(data.len(), |k: int| raid5_source(order[data[k] as int], None, Seq::empty(), off as u64));
        let b = Seq::new(data.len(), |k: int| raid5_source(order[data[k] as int], Some(m), avail, off as u64));
        let rest = disks.remove(m as int);
        let stripes = stripes_at(disks, off as int, stripe);
        assert(stripes_at(rest, off as int, stripe) =~= stripes.remove(m as int));
        assert((off as u64) as int == off);
        assert forall|k: int| 0 <= k < data.len() implies #[trigger] sources_bytes(b, rest, stripe)[k] == sources_bytes(a, disks, stripe)[k] by {
            let d = order[data[k] as int];
            assert(data[k] < n);
            assert(d < n);
            if d == m {
                assert((row + 1) * stripe == off + stripe) by (nonlinear_arith)
                    requires off == row * stripe;
                assert(disks[0].len() >= (row + 1) * full.spec_stripe_size());
                assert(stripes[0] == stripe_of(disks[0], off as int, stripe));
                lemma_rebuild_recovers_missing_stripe(stripes, m as int, stripe);
            } else {
                assert(avail[d as int] == spec_available_slot(d as nat, m as nat));
                if d < m {
                    assert(rest[d as int] == disks[d as int]);
                } else {
                    assert(rest[d - 1] == disks[d as int]);
                }
            }
        }
        assert(sources_bytes(b, rest, stripe) =~= sources_bytes(a, disks, stripe));
    }
}

} // verus!
