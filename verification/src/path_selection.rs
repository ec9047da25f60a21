//! Random circuit path selection.
//!
//! Draw a fresh path per cell, not one per message: a path reused for
//! every fragment of a message would let a single compromised relay link
//! all of that message's cells together.

use vstd::prelude::*;
use vstd::utf8::encode_utf8;
use rand::rngs::OsRng;

use crate::primitives::shuffle;
use crate::topology::{distinct_ids, relay_views, RelayInfo, RelayInfoView, Topology};

verus! {

#[derive(Debug)]
pub enum PathSelectionError {
    InsufficientRelays { needed: usize, available: usize },
}

// ---------------------------------------------------------------------
// Subnet keys: the first three octets of a literal IPv4 host
// ---------------------------------------------------------------------

/// The position of the last byte `x` in `b`, if any.
pub open spec fn last_index_of(b: Seq<u8>, x: u8) -> Option<int>
    decreases b.len(),
{
    if b.len() == 0 {
        None
    } else if b.last() == x {
        Some(b.len() - 1)
    } else {
        last_index_of(b.drop_last(), x)
    }
}

/// Whether a byte is an ASCII decimal digit.
pub open spec fn is_digit(c: u8) -> bool {
    48 <= c <= 57
}

/// The end of the run of digits that starts at `i`.
pub open spec fn digit_run_end(b: Seq<u8>, i: int) -> int
    decreases b.len() - i,
{
    if 0 <= i < b.len() && is_digit(b[i]) {
        digit_run_end(b, i + 1)
    } else {
        i
    }
}

/// The number that a run of decimal digits writes.
pub open spec fn decimal_value(d: Seq<u8>) -> nat
    decreases d.len(),
{
    if d.len() == 0 {
        0
    } else {
        decimal_value(d.drop_last()) * 10 + (d.last() - 48) as nat
    }
}

/// The IPv4 octet written at position `i`, with the position after it:
/// one to three digits, no leading zero before another digit, at most
/// 255 (the rules of `core::net`'s address parser).
pub open spec fn spec_octet_at(b: Seq<u8>, i: int) -> Option<(u8, int)> {
    let e = digit_run_end(b, i);
    let n = e - i;
    if 1 <= n <= 3 && !(n > 1 && b[i] == 48) && decimal_value(b.subrange(i, e)) <= 255 {
        Some((decimal_value(b.subrange(i, e)) as u8, e))
    } else {
        None
    }
}

/// `n` dot-separated octets from position `i` to the end of `b`.
pub open spec fn spec_read_octets(b: Seq<u8>, i: int, n: nat) -> Option<Seq<u8>>
    decreases n,
{
    match spec_octet_at(b, i) {
        None => None,
        Some((o, e)) => if n <= 1 {
            if e == b.len() {
                Some(seq![o])
            } else {
                None
            }
        } else if e < b.len() && b[e] == 46 {
            match spec_read_octets(b, e + 1, (n - 1) as nat) {
                Some(rest) => Some(seq![o] + rest),
                None => None,
            }
        } else {
            None
        },
    }
}

/// The four octets of a literal IPv4 address, or nothing.
pub open spec fn spec_parse_ipv4(b: Seq<u8>) -> Option<Seq<u8>> {
    spec_read_octets(b, 0, 4)
}

/// The first three octets of a relay address's IPv4 host (the part
/// before the last `:`), standing in for "network operator"; nothing for
/// a host name, an IPv6 literal or anything else.
pub open spec fn spec_subnet_key(address: Seq<char>) -> Option<Seq<u8>> {
    let b = encode_utf8(address);
    match last_index_of(b, 58) {
        None => None,
        Some(p) => match spec_parse_ipv4(b.take(p)) {
            None => None,
            Some(octets) => Some(octets.take(3)),
        },
    }
}

proof fn lemma_run_end_bounds(b: Seq<u8>, i: int)
    requires
        0 <= i <= b.len(),
    ensures
        i <= digit_run_end(b, i) <= b.len(),
        forall|k: int| i <= k < digit_run_end(b, i) ==> is_digit(#[trigger] b[k]),
        digit_run_end(b, i) < b.len() ==> !is_digit(b[digit_run_end(b, i)]),
    decreases b.len() - i,
{
    if i < b.len() && is_digit(b[i]) {
        lemma_run_end_bounds(b, i + 1);
    }
}

/// The octet at position `i`, with the position after it.
fn read_octet(b: &[u8], i: usize) -> (r: Option<(u8, usize)>)
    requires
        i <= b@.len(),
    ensures
        r is None <==> spec_octet_at(b@, i as int) is None,
        r matches Some((o, e)) ==> spec_octet_at(b@, i as int) == Some((o, e as int)),
{
    proof {
        lemma_run_end_bounds(b@, i as int);
    }
    let mut j: usize = i;
    let mut value: u32 = 0;
    while j < b.len() && j - i < 4 && 48 <= b[j] && b[j] <= 57
        invariant
            i <= j <= b@.len(),
            j - i <= 4,
            digit_run_end(b@, i as int) == digit_run_end(b@, j as int),
            forall|k: int| i <= k < j ==> is_digit(#[trigger] b@[k]),
            value == decimal_value(b@.subrange(i as int, j as int)),
            j - i <= 1 ==> value < 10,
            j - i <= 2 ==> value < 100,
            j - i <= 3 ==> value < 1000,
            value < 10000,
        decreases b@.len() - j,
    {
        assert(b@.subrange(i as int, j + 1).drop_last() =~= b@.subrange(i as int, j as int));
        value = value * 10 + (b[j] - 48) as u32;
        j = j + 1;
    }
    let n = j - i;
    if j - i == 4 {
        assert(digit_run_end(b@, i as int) - i >= 4) by {
            lemma_run_end_bounds(b@, j as int);
        }
        return None;
    }
    assert(digit_run_end(b@, j as int) == j);
    if n == 0 || (n > 1 && b[i] == 48) || value > 255 {
        return None;
    }
    Some((value as u8, j))
}

/// `n` dot-separated octets from position `i` to the end of `b`.
fn read_octets(b: &[u8], i: usize, n: usize) -> (r: Option<Vec<u8>>)
    requires
        i <= b@.len(),
        1 <= n <= 4,
    ensures
        match spec_read_octets(b@, i as int, n as nat) {
            None => r is None,
            Some(s) => r matches Some(v) && v@ == s,
        },
    decreases n,
{
    let (o, e) = match read_octet(b, i) {
        None => {
            return None;
        },
        Some(x) => x,
    };
    if n <= 1 {
        if e == b.len() {
            let mut v: Vec<u8> = Vec::new();
            v.push(o);
            assert(v@ =~= seq![o]);
            return Some(v);
        }
        return None;
    }
    if e < b.len() && b[e] == 46 {
        match read_octets(b, e + 1, n - 1) {
            Some(rest) => {
                let mut v: Vec<u8> = Vec::new();
                v.push(o);
                let mut k: usize = 0;
                while k < rest.len()
                    invariant
                        k <= rest@.len(),
                        v@ == seq![o] + rest@.take(k as int),
                    decreases rest@.len() - k,
                {
                    v.push(rest[k]);
                    k = k + 1;
                    assert(v@ =~= seq![o] + rest@.take(k as int));
                }
                assert(rest@.take(rest@.len() as int) =~= rest@);
                Some(v)
            },
            None => None,
        }
    } else {
        None
    }
}

/// The position of the last `:` in `b`, if any.
fn last_colon(b: &[u8]) -> (r: Option<usize>)
    ensures
        r is None <==> last_index_of(b@, 58) is None,
        r matches Some(p) ==> p < b@.len() && last_index_of(b@, 58) == Some(p as int),
{
    let mut j: usize = b.len();
    assert(b@.take(j as int) =~= b@);
    while j > 0
        invariant
            j <= b@.len(),
            last_index_of(b@, 58) == last_index_of(b@.take(j as int), 58),
        decreases j,
    {
        assert(b@.take(j as int).drop_last() =~= b@.take(j - 1));
        if b[j - 1] == 58 {
            return Some(j - 1);
        }
        j = j - 1;
    }
    None
}

/// The first three octets of an address's IPv4 host, if it has one.
/// Addresses that are not literal IPv4 (host names, IPv6) give nothing:
/// callers must read that as "diversity unknown", not "diverse".
pub fn subnet_key(address: &str) -> (r: Option<[u8; 3]>)
    ensures
        match spec_subnet_key(address@) {
            None => r is None,
            Some(k) => r matches Some(a) && a@ == k,
        },
{
    let b = address.as_bytes();
    let p = match last_colon(b) {
        None => {
            return None;
        },
        Some(p) => p,
    };
    let host = &b[0..p];
    assert(host@ =~= b@.take(p as int));
    match read_octets(host, 0, 4) {
        None => None,
        Some(octets) => {
            proof {
                lemma_four_octets(host@);
            }
            let key = [octets[0], octets[1], octets[2]];
            assert(key@ =~= octets@.take(3));
            Some(key)
        },
    }
}

proof fn lemma_read_octets_len(b: Seq<u8>, i: int, n: nat)
    requires
        1 <= n,
        spec_read_octets(b, i, n) is Some,
    ensures
        spec_read_octets(b, i, n)->0.len() == n,
    decreases n,
{
    if n > 1 {
        let (o, e) = spec_octet_at(b, i)->0;
        lemma_read_octets_len(b, e + 1, (n - 1) as nat);
    }
}

proof fn lemma_four_octets(b: Seq<u8>)
    requires
        spec_parse_ipv4(b) is Some,
    ensures
        spec_parse_ipv4(b)->0.len() == 4,
{
    lemma_read_octets_len(b, 0, 4);
}

// ---------------------------------------------------------------------
// Path selection
// ---------------------------------------------------------------------

/// Walks relays in order: a relay whose subnet is already used is set
/// aside, every other relay is kept (and its subnet marked used). Gives
/// the kept relays, the set-aside relays and the used subnets.
pub open spec fn diverse_split(rs: Seq<RelayInfoView>) -> (Seq<RelayInfoView>, Seq<RelayInfoView>, Set<
    Seq<u8>,
>)
    decreases rs.len(),
{
    if rs.len() == 0 {
        (Seq::empty(), Seq::empty(), Set::empty())
    } else {
        let (kept, left, used) = diverse_split(rs.drop_last());
        let r = rs.last();
        match spec_subnet_key(r.address) {
            Some(k) => if used.contains(k) {
                (kept, left.push(r), used)
            } else {
                (kept.push(r), left, used.insert(k))
            },
            None => (kept.push(r), left, used),
        }
    }
}

/// The diverse path drawn from relays in the order `order`: kept relays
/// first, then set-aside ones, cut to `hop_count`.
pub open spec fn spec_diverse_pick(order: Seq<RelayInfoView>, hop_count: nat) -> Seq<RelayInfoView> {
    let (kept, left, used) = diverse_split(order);
    (kept + left).take(hop_count as int)
}

/// Whether two relays of `path` share a known subnet.
pub open spec fn shares_subnet(path: Seq<RelayInfoView>) -> bool {
    exists|a: int, b: int|
        0 <= a < b < path.len() && (#[trigger] spec_subnet_key(path[a].address)) is Some
            && spec_subnet_key(path[a].address) == #[trigger] spec_subnet_key(path[b].address)
}

/// Whether `perm` lists positions below `n`, each once, `n` of them.
pub open spec fn is_index_permutation(perm: Seq<usize>, n: nat) -> bool {
    &&& perm.len() == n
    &&& perm.no_duplicates()
    &&& forall|k: int| 0 <= k < perm.len() ==> #[trigger] perm[k] < n
}

/// The relays of `t` in the order that `perm` lists their positions.
pub open spec fn perm_views(t: Seq<RelayInfoView>, perm: Seq<usize>) -> Seq<RelayInfoView> {
    perm.map_values(|i: usize| t[i as int])
}

/// The positions below `n` in a random order.
fn shuffled_positions(n: usize, rng: &mut OsRng) -> (r: Vec<usize>)
    ensures
        is_index_permutation(r@, n as nat),
{
    let mut positions: Vec<usize> = Vec::new();
    let mut i: usize = 0;
    while i < n
        invariant
            i <= n,
            positions@ == Seq::new(i as nat, |k: int| k as usize),
        decreases n - i,
    {
        positions.push(i);
        i = i + 1;
        assert(positions@ =~= Seq::new(i as nat, |k: int| k as usize));
    }
    let ghost before = positions@;
    shuffle(&mut positions, rng);
    proof {
        lemma_index_permutation(before, positions@, n as nat);
    }
    positions
}

/// The relays of `all` in the order of `perm`.
fn arrange<'a>(all: &Vec<&'a RelayInfo>, perm: &Vec<usize>) -> (r: Vec<&'a RelayInfo>)
    requires
        forall|k: int| 0 <= k < perm@.len() ==> #[trigger] perm@[k] < all@.len(),
    ensures
        relay_views(r@) == perm_views(relay_views(all@), perm@),
{
    let mut out: Vec<&'a RelayInfo> = Vec::new();
    let mut k: usize = 0;
    while k < perm.len()
        invariant
            k <= perm@.len(),
            forall|j: int| 0 <= j < perm@.len() ==> #[trigger] perm@[j] < all@.len(),
            relay_views(out@) == perm_views(relay_views(all@), perm@).take(k as int),
        decreases perm@.len() - k,
    {
        let ghost prev = out@;
        out.push(all[perm[k]]);
        assert(relay_views(out@) =~= relay_views(prev).push(relay_views(all@)[perm@[k as int] as int]));
        k = k + 1;
        assert(relay_views(out@) =~= perm_views(relay_views(all@), perm@).take(k as int));
    }
    assert(perm_views(relay_views(all@), perm@).take(perm@.len() as int) =~= perm_views(
        relay_views(all@),
        perm@,
    ));
    out
}

/// Selects `hop_count` distinct relays from `topology` in random order:
/// `path[0]` is the entry hop, the last one the exit hop.
pub fn select_path<'a>(topology: &'a Topology, hop_count: usize, rng: &mut OsRng) -> (r: Result<
    Vec<&'a RelayInfo>,
    PathSelectionError,
>)
    ensures
        topology@.len() < hop_count <==> r is Err,
        r matches Err(e) ==> e == (PathSelectionError::InsufficientRelays {
            needed: hop_count,
            available: topology@.len() as usize,
        }),
        r matches Ok(path) ==> path@.len() == hop_count && exists|perm: Seq<usize>|
            is_index_permutation(perm, topology@.len()) && relay_views(path@) == #[trigger] perm_views(
                topology@,
                perm,
            ).take(hop_count as int),
        r matches Ok(path) ==> distinct_ids(relay_views(path@)) && forall|k: int|
            0 <= k < path@.len() ==> topology@.contains(#[trigger] relay_views(path@)[k]),
{
    let all = topology.all();
    if all.len() < hop_count {
        return Err(PathSelectionError::InsufficientRelays { needed: hop_count, available: all.len() });
    }
    let perm = shuffled_positions(all.len(), rng);
    let mut candidates = arrange(&all, &perm);
    let ghost order = relay_views(candidates@);
    candidates.truncate(hop_count);
    proof {
        assert(relay_views(candidates@) =~= order.take(hop_count as int));
        lemma_perm_views_distinct(topology@, perm@);
        lemma_take_keeps(order, hop_count as int);
    }
    Ok(candidates)
}

/// Like [`select_path`], but avoids taking two relays from the same IPv4
/// /24 subnet when it can, a light defence against one operator running
/// many relays on adjacent addresses.
///
/// Best effort: relays whose address is not a literal IPv4 address have
/// an unknown subnet and are never set aside; when there are too few
/// subnet-diverse relays to fill the path (say, every relay runs on
/// `127.0.0.1`), relays that repeat a subnet fill the rest instead of
/// the call failing.
pub fn select_diverse_path<'a>(topology: &'a Topology, hop_count: usize, rng: &mut OsRng) -> (r:
    Result<Vec<&'a RelayInfo>, PathSelectionError>)
    ensures
        topology@.len() < hop_count <==> r is Err,
        r matches Err(e) ==> e == (PathSelectionError::InsufficientRelays {
            needed: hop_count,
            available: topology@.len() as usize,
        }),
        r matches Ok(path) ==> path@.len() == hop_count && exists|perm: Seq<usize>|
            is_index_permutation(perm, topology@.len()) && relay_views(path@) == spec_diverse_pick(
                #[trigger] perm_views(topology@, perm),
                hop_count as nat,
            ),
        r matches Ok(path) ==> distinct_ids(relay_views(path@)) && forall|k: int|
            0 <= k < path@.len() ==> topology@.contains(#[trigger] relay_views(path@)[k]),
        r matches Ok(path) ==> forall|pos: Seq<int>|
            #[trigger] is_diverse_choice(topology@, pos) && hop_count <= pos.len() ==> !shares_subnet(
                relay_views(path@),
            ),
{
    let all = topology.all();
    if all.len() < hop_count {
        return Err(PathSelectionError::InsufficientRelays { needed: hop_count, available: all.len() });
    }
    let perm = shuffled_positions(all.len(), rng);
    let candidates = arrange(&all, &perm);
    let ghost order = relay_views(candidates@);
    let mut path: Vec<&RelayInfo> = Vec::new();
    let mut used_subnets: Vec<[u8; 3]> = Vec::new();
    let mut leftover: Vec<&RelayInfo> = Vec::new();
    let mut i: usize = 0;
    while i < candidates.len()
        invariant
            i <= candidates@.len(),
            order == relay_views(candidates@),
            ({
                let (kept, left, used) = diverse_split(order.take(i as int));
                &&& relay_views(path@) == kept
                &&& relay_views(leftover@) == left
                &&& forall|k: Seq<u8>| used.contains(k) <==> exists|u: int|
                    0 <= u < used_subnets@.len() && #[trigger] used_subnets@[u]@ == k
            }),
        decreases candidates@.len() - i,
    {
        let relay = candidates[i];
        proof {
            assert(order.take(i + 1).drop_last() =~= order.take(i as int));
            assert(order.take(i + 1).last() == relay@);
        }
        let ghost prev_used = used_subnets@;
        let ghost prev_path = path@;
        let ghost prev_left = leftover@;
        match subnet_key(relay.address.as_str()) {
            Some(key) => {
                if contains_key(&used_subnets, &key) {
                    leftover.push(relay);
                    assert(relay_views(leftover@) =~= relay_views(prev_left).push(relay@));
                } else {
                    used_subnets.push(key);
                    path.push(relay);
                    proof {
                        let (kept, left, used) = diverse_split(order.take(i + 1));
                        assert(relay_views(path@) =~= relay_views(prev_path).push(relay@));
                        assert forall|k: Seq<u8>| used.contains(k) <==> exists|u: int|
                            0 <= u < used_subnets@.len() && #[trigger] used_subnets@[u]@ == k by {
                            if k == key@ {
                                assert(used_subnets@[used_subnets@.len() - 1]@ == k);
                            }
                            if exists|u: int|
                                0 <= u < used_subnets@.len() && #[trigger] used_subnets@[u]@ == k {
                                let u = choose|u: int|
                                    0 <= u < used_subnets@.len() && #[trigger] used_subnets@[u]@
                                        == k;
                                if u < used_subnets@.len() - 1 {
                                    assert(prev_used[u] == used_subnets@[u]);
                                }
                            }
                            if used.contains(k) && k != key@ {
                                let (k0, l0, u0) = diverse_split(order.take(i as int));
                                assert(u0.contains(k));
                                let u = choose|u: int|
                                    0 <= u < prev_used.len() && #[trigger] prev_used[u]@ == k;
                                assert(used_subnets@[u] == prev_used[u]);
                            }
                        }
                    }
                }
            },
            None => {
                path.push(relay);
                assert(relay_views(path@) =~= relay_views(prev_path).push(relay@));
            },
        }
        i = i + 1;
    }
    assert(order.take(candidates@.len() as int) =~= order);
    let ghost kept_all = relay_views(path@);
    let ghost left_all = relay_views(leftover@);
    proof {
        lemma_split_multiset(order);
    }
    let mut k: usize = 0;
    while k < leftover.len() && path.len() < hop_count
        invariant
            k <= leftover@.len(),
            hop_count <= order.len(),
            kept_all.len() + left_all.len() == order.len(),
            relay_views(path@) == (kept_all + left_all).take(kept_all.len() + k),
            left_all == relay_views(leftover@),
        decreases leftover@.len() - k,
    {
        let ghost prev = path@;
        path.push(leftover[k]);
        assert(relay_views(path@) =~= relay_views(prev).push(left_all[k as int]));
        k = k + 1;
        assert(relay_views(path@) =~= (kept_all + left_all).take(kept_all.len() + k));
    }
    assert(path@.len() >= hop_count) by {
        assert(relay_views(path@).len() == path@.len());
    }
    path.truncate(hop_count);
    proof {
        assert(path@.len() == hop_count);
        assert(relay_views(path@) =~= spec_diverse_pick(order, hop_count as nat));
        lemma_perm_views_distinct(topology@, perm@);
        lemma_multiset_keeps(order, kept_all + left_all);
        lemma_take_keeps(kept_all + left_all, hop_count as int);
        assert forall|j: int| 0 <= j < path@.len() implies topology@.contains(
            #[trigger] relay_views(path@)[j],
        ) by {
            assert(order.contains(relay_views(path@)[j]));
        }
        assert forall|pos: Seq<int>|
            #[trigger] is_diverse_choice(topology@, pos) && hop_count <= pos.len() implies !shares_subnet(
                relay_views(path@),
            ) by {
            lemma_diverse_path_when_diverse_relays_exist(topology@, perm@, pos, hop_count as nat);
        }
    }
    Ok(path)
}

fn contains_key(used: &Vec<[u8; 3]>, key: &[u8; 3]) -> (r: bool)
    ensures
        r == exists|u: int| 0 <= u < used@.len() && #[trigger] used@[u]@ == key@,
{
    let mut u: usize = 0;
    while u < used.len()
        invariant
            u <= used@.len(),
            forall|v: int| 0 <= v < u ==> (#[trigger] used@[v])@ != key@,
        decreases used@.len() - u,
    {
        let candidate = &used[u];
        if candidate[0] == key[0] && candidate[1] == key[1] && candidate[2] == key[2] {
            assert(used@[u as int]@ =~= key@);
            return true;
        }
        assert(used@[u as int]@ != key@) by {
            if used@[u as int]@ == key@ {
                assert(used@[u as int]@[0] == key@[0]);
                assert(used@[u as int]@[1] == key@[1]);
                assert(used@[u as int]@[2] == key@[2]);
            }
        }
        u = u + 1;
    }
    false
}

/// A shuffle of the positions below `n` lists each of them once.
proof fn lemma_index_permutation(before: Seq<usize>, after: Seq<usize>, n: nat)
    requires
        n <= usize::MAX,
        before == Seq::new(n, |k: int| k as usize),
        after.to_multiset() == before.to_multiset(),
        after.len() == before.len(),
    ensures
        is_index_permutation(after, n),
{
    broadcast use vstd::seq_lib::group_to_multiset_ensures;

    assert forall|a: int, b: int| 0 <= a < before.len() && 0 <= b < before.len() && a != b implies before[a]
        != before[b] by {
        assert(before[a] == a as usize);
        assert(before[b] == b as usize);
    }
    assert(before.no_duplicates());
    before.lemma_multiset_has_no_duplicates();
    after.lemma_multiset_has_no_duplicates_conv();
    assert forall|k: int| 0 <= k < after.len() implies #[trigger] after[k] < n by {
        assert(after.contains(after[k]));
        assert(after.to_multiset().count(after[k]) > 0);
        assert(before.contains(after[k]));
    }
}

/// With distinct ids and distinct positions, the arranged relays have
/// distinct ids, and each is a relay of the topology.
proof fn lemma_perm_views_distinct(t: Seq<RelayInfoView>, perm: Seq<usize>)
    requires
        distinct_ids(t),
        is_index_permutation(perm, t.len()),
    ensures
        distinct_ids(perm_views(t, perm)),
        forall|k: int| 0 <= k < perm.len() ==> t.contains(#[trigger] perm_views(t, perm)[k]),
{
    let s = perm_views(t, perm);
    assert forall|a: int, b: int| 0 <= a < b < s.len() implies #[trigger] s[a].id
        != #[trigger] s[b].id by {
        assert(perm[a] != perm[b]);
        assert(s[a] == t[perm[a] as int]);
        assert(s[b] == t[perm[b] as int]);
    }
    assert forall|k: int| 0 <= k < perm.len() implies t.contains(#[trigger] s[k]) by {
        assert(s[k] == t[perm[k] as int]);
    }
}

/// A prefix keeps distinct ids and membership.
proof fn lemma_take_keeps(s: Seq<RelayInfoView>, n: int)
    requires
        0 <= n <= s.len(),
    ensures
        distinct_ids(s) ==> distinct_ids(s.take(n)),
        forall|k: int| 0 <= k < n ==> s.contains(#[trigger] s.take(n)[k]),
{
    assert forall|k: int| 0 <= k < n implies s.contains(#[trigger] s.take(n)[k]) by {
        assert(s.take(n)[k] == s[k]);
    }
    if distinct_ids(s) {
        assert forall|a: int, b: int| 0 <= a < b < s.take(n).len() implies #[trigger] s.take(
            n,
        )[a].id != #[trigger] s.take(n)[b].id by {
            assert(s.take(n)[a] == s[a]);
            assert(s.take(n)[b] == s[b]);
        }
    }
}

/// A rearrangement of relays with distinct ids has distinct ids and the
/// same relays.
proof fn lemma_multiset_keeps(s: Seq<RelayInfoView>, s2: Seq<RelayInfoView>)
    requires
        distinct_ids(s),
        s2.to_multiset() == s.to_multiset(),
    ensures
        distinct_ids(s2),
        forall|k: int| 0 <= k < s2.len() ==> s.contains(#[trigger] s2[k]),
{
    broadcast use vstd::seq_lib::group_to_multiset_ensures;

    assert forall|k: int| 0 <= k < s2.len() implies s.contains(#[trigger] s2[k]) by {
        assert(s2.contains(s2[k]));
        assert(s2.to_multiset().count(s2[k]) > 0);
    }
    assert(s.no_duplicates()) by {
        assert forall|a: int, b: int| 0 <= a < s.len() && 0 <= b < s.len() && a != b implies s[a]
            != s[b] by {
            if a < b {
                assert(s[a].id != s[b].id);
            } else {
                assert(s[b].id != s[a].id);
            }
        }
    }
    s.lemma_multiset_has_no_duplicates();
    s2.lemma_multiset_has_no_duplicates_conv();
    assert forall|a: int, b: int| 0 <= a < b < s2.len() implies #[trigger] s2[a].id
        != #[trigger] s2[b].id by {
        assert(s.contains(s2[a]));
        assert(s.contains(s2[b]));
        let ia = choose|i: int| 0 <= i < s.len() && s[i] == s2[a];
        let ib = choose|i: int| 0 <= i < s.len() && s[i] == s2[b];
        if s2[a].id == s2[b].id {
            if ia != ib {
                if ia < ib {
                    assert(s[ia].id != s[ib].id);
                } else {
                    assert(s[ib].id != s[ia].id);
                }
            }
            assert(s2[a] == s2[b]);
        }
    }
}

/// The kept and set-aside relays together are the relays walked, each as
/// often.
proof fn lemma_split_multiset(rs: Seq<RelayInfoView>)
    ensures
        (diverse_split(rs).0 + diverse_split(rs).1).to_multiset() == rs.to_multiset(),
        diverse_split(rs).0.len() + diverse_split(rs).1.len() == rs.len(),
    decreases rs.len(),
{
    broadcast use vstd::seq_lib::group_to_multiset_ensures;

    if rs.len() > 0 {
        lemma_split_multiset(rs.drop_last());
        let (kept, left, used) = diverse_split(rs.drop_last());
        let r = rs.last();
        assert(rs =~= rs.drop_last().push(r));
        vstd::seq_lib::lemma_multiset_commutative(kept, left);
        vstd::seq_lib::lemma_multiset_commutative(kept.push(r), left);
        vstd::seq_lib::lemma_multiset_commutative(kept, left.push(r));
    }
}

/// No two kept relays share a known subnet, and the used subnets are
/// exactly those of the kept relays.
proof fn lemma_kept_diverse(rs: Seq<RelayInfoView>)
    ensures
        !shares_subnet(diverse_split(rs).0),
        forall|k: Seq<u8>|
            #[trigger] diverse_split(rs).2.contains(k) <==> exists|a: int|
                0 <= a < diverse_split(rs).0.len() && spec_subnet_key(diverse_split(rs).0[a].address)
                    == Some(k),
    decreases rs.len(),
{
    if rs.len() > 0 {
        lemma_kept_diverse(rs.drop_last());
        let (kept, left, used) = diverse_split(rs.drop_last());
        let r = rs.last();
        let (kept2, left2, used2) = diverse_split(rs);
        assert forall|k: Seq<u8>| #[trigger] used2.contains(k) <==> exists|a: int|
            0 <= a < kept2.len() && spec_subnet_key(kept2[a].address) == Some(k) by {
            if used2.contains(k) && !used.contains(k) {
                assert(kept2[kept2.len() - 1] == r);
            }
            if used.contains(k) {
                let a = choose|a: int| 0 <= a < kept.len() && spec_subnet_key(kept[a].address) == Some(k);
                assert(kept2[a] == kept[a]);
            }
            if exists|a: int| 0 <= a < kept2.len() && spec_subnet_key(kept2[a].address) == Some(k) {
                let a = choose|a: int| 0 <= a < kept2.len() && spec_subnet_key(kept2[a].address) == Some(k);
                if a < kept.len() {
                    assert(kept2[a] == kept[a]);
                }
            }
        }
        assert(!shares_subnet(kept2)) by {
            if shares_subnet(kept2) {
                let (a, b) = choose|a: int, b: int|
                    0 <= a < b < kept2.len() && (#[trigger] spec_subnet_key(kept2[a].address)) is Some
                        && spec_subnet_key(kept2[a].address) == #[trigger] spec_subnet_key(
                        kept2[b].address,
                    );
                if b < kept.len() {
                    assert(kept2[a] == kept[a]);
                    assert(kept2[b] == kept[b]);
                } else {
                    assert(kept2[a] == kept[a]);
                    let k = spec_subnet_key(kept[a].address)->0;
                    assert(used.contains(k));
                }
            }
        }
    }
}

/// A diverse pick repeats no known subnet whenever the walk kept at least
/// as many relays as the path needs: set-aside relays, the only ones that
/// repeat a subnet, are then never reached.
pub proof fn lemma_diverse_pick_avoids_shared_subnets(order: Seq<RelayInfoView>, hop_count: nat)
    requires
        diverse_split(order).0.len() >= hop_count,
    ensures
        !shares_subnet(spec_diverse_pick(order, hop_count)),
{
    let (kept, left, used) = diverse_split(order);
    lemma_kept_diverse(order);
    let path = spec_diverse_pick(order, hop_count);
    assert(path =~= kept.take(hop_count as int));
    if shares_subnet(path) {
        let (a, b) = choose|a: int, b: int|
            0 <= a < b < path.len() && (#[trigger] spec_subnet_key(path[a].address)) is Some
                && spec_subnet_key(path[a].address) == #[trigger] spec_subnet_key(path[b].address);
        assert(path[a] == kept[a]);
        assert(path[b] == kept[b]);
        assert(shares_subnet(kept));
    }
}

/// The known subnet of the relay at position `i` of `rs`.
pub open spec fn key_at(rs: Seq<RelayInfoView>, i: int) -> Option<Seq<u8>> {
    spec_subnet_key(rs[i].address)
}

/// Whether `pos` picks distinct relays of `rs` no two of which share a
/// known subnet.
pub open spec fn is_diverse_choice(rs: Seq<RelayInfoView>, pos: Seq<int>) -> bool {
    &&& pos.no_duplicates()
    &&& forall|k: int| 0 <= k < pos.len() ==> 0 <= #[trigger] pos[k] < rs.len()
    &&& forall|a: int, b: int|
        0 <= a < pos.len() && 0 <= b < pos.len() && a != b && (#[trigger] key_at(rs, pos[a])) is Some
            ==> key_at(rs, pos[a]) != #[trigger] key_at(rs, pos[b])
}

/// The positions of the relays of `rs` whose subnet is unknown.
pub open spec fn unknown_positions(rs: Seq<RelayInfoView>) -> Set<int> {
    Set::new(|i: int| 0 <= i < rs.len() && key_at(rs, i) is None)
}

/// The walk keeps one relay per known subnet and every relay of unknown
/// subnet: it keeps as many relays as there are used subnets plus
/// unknown-subnet relays, and every known subnet of `rs` ends up used.
proof fn lemma_kept_count(rs: Seq<RelayInfoView>)
    ensures
        diverse_split(rs).2.finite(),
        unknown_positions(rs).finite(),
        diverse_split(rs).0.len() == diverse_split(rs).2.len() + unknown_positions(rs).len(),
        forall|i: int|
            0 <= i < rs.len() && (#[trigger] key_at(rs, i)) is Some ==> diverse_split(rs).2.contains(
                key_at(rs, i)->0,
            ),
    decreases rs.len(),
{
    if rs.len() == 0 {
        assert(unknown_positions(rs) =~= Set::<int>::empty());
    } else {
        let init = rs.drop_last();
        lemma_kept_count(init);
        let (kept, left, used) = diverse_split(init);
        let n = rs.len() - 1;
        assert forall|i: int| 0 <= i < n implies #[trigger] key_at(rs, i) == key_at(init, i) by {
            assert(rs[i] == init[i]);
        }
        assert(rs.last() == rs[n]);
        match spec_subnet_key(rs.last().address) {
            Some(k) => {
                assert(unknown_positions(rs) =~= unknown_positions(init));
                if !used.contains(k) {
                    assert(used.insert(k).len() == used.len() + 1);
                }
            },
            None => {
                assert(unknown_positions(rs) =~= unknown_positions(init).insert(n));
                assert(!unknown_positions(init).contains(n));
            },
        }
        assert forall|i: int| 0 <= i < rs.len() && (#[trigger] key_at(rs, i)) is Some implies diverse_split(
            rs,
        ).2.contains(key_at(rs, i)->0) by {
            if i < n {
                assert(key_at(rs, i) == key_at(init, i));
            }
        }
    }
}

/// No diverse choice from `rs` is larger than what the walk keeps.
proof fn lemma_diverse_choice_bound(rs: Seq<RelayInfoView>, pos: Seq<int>)
    requires
        is_diverse_choice(rs, pos),
    ensures
        pos.len() <= diverse_split(rs).0.len(),
{
    lemma_kept_count(rs);
    let used = diverse_split(rs).2;
    let unknown = unknown_positions(rs);
    let all = pos.to_set();
    pos.unique_seq_to_set();
    let known_part = all.filter(|i: int| key_at(rs, i) is Some);
    let unknown_part = all.filter(|i: int| key_at(rs, i) is None);
    assert(all =~= known_part + unknown_part);
    assert(known_part.disjoint(unknown_part));
    vstd::set_lib::lemma_set_subset_finite(all, known_part);
    vstd::set_lib::lemma_set_subset_finite(all, unknown_part);
    vstd::set_lib::lemma_set_disjoint_lens(known_part, unknown_part);
    assert(unknown_part.subset_of(unknown)) by {
        assert forall|i: int| unknown_part.contains(i) implies unknown.contains(i) by {
            let k = choose|k: int| 0 <= k < pos.len() && pos[k] == i;
            assert(0 <= pos[k] < rs.len());
        }
    }
    vstd::set_lib::lemma_len_subset(unknown_part, unknown);
    let f = |i: int| key_at(rs, i)->0;
    assert(vstd::relations::injective_on(f, known_part)) by {
        assert forall|x1: int, x2: int|
            known_part.contains(x1) && known_part.contains(x2) && #[trigger] f(x1) == #[trigger] f(x2)
                implies x1 == x2 by {
            let a = choose|a: int| 0 <= a < pos.len() && pos[a] == x1;
            let b = choose|b: int| 0 <= b < pos.len() && pos[b] == x2;
            if a != b {
                assert(key_at(rs, pos[a]) != key_at(rs, pos[b]));
            }
        }
    }
    let image = known_part.map(f);
    vstd::set_lib::lemma_map_size(known_part, image, f);
    assert(image.subset_of(used)) by {
        assert forall|k: Seq<u8>| image.contains(k) implies used.contains(k) by {
            let i = choose|i: int| known_part.contains(i) && f(i) == k;
            let a = choose|a: int| 0 <= a < pos.len() && pos[a] == i;
            assert(0 <= pos[a] < rs.len());
            assert(key_at(rs, i) is Some);
        }
    }
    vstd::set_lib::lemma_len_subset(image, used);
}

/// Whether position `i` occurs in `perm`.
spec fn lists_position(perm: Seq<usize>, i: int) -> bool {
    exists|j: int| 0 <= j < perm.len() && perm[j] == i
}

/// A permutation of the positions below `n` lists every one of them.
proof fn lemma_permutation_covers(perm: Seq<usize>, n: nat)
    requires
        is_index_permutation(perm, n),
    ensures
        forall|i: int| 0 <= i < n ==> #[trigger] lists_position(perm, i),
{
    let as_int = perm.map_values(|p: usize| p as int);
    assert(as_int.no_duplicates()) by {
        assert forall|a: int, b: int| 0 <= a < as_int.len() && 0 <= b < as_int.len() && a != b implies as_int[a]
            != as_int[b] by {
            assert(perm[a] != perm[b]);
        }
    }
    as_int.unique_seq_to_set();
    let range = vstd::set_lib::set_int_range(0, n as int);
    vstd::set_lib::lemma_int_range(0, n as int);
    assert(as_int.to_set().subset_of(range)) by {
        assert forall|x: int| as_int.to_set().contains(x) implies range.contains(x) by {
            let j = choose|j: int| 0 <= j < as_int.len() && as_int[j] == x;
            assert(perm[j] < n);
        }
    }
    vstd::set_lib::lemma_subset_equality(as_int.to_set(), range);
    assert forall|i: int| 0 <= i < n implies #[trigger] lists_position(perm, i) by {
        assert(range.contains(i));
        assert(as_int.to_set().contains(i));
        let j = choose|j: int| 0 <= j < as_int.len() && as_int[j] == i;
        assert(perm[j] == i);
    }
}

/// A diverse choice among the relays of `t` is also one among the same
/// relays rearranged by a permutation.
proof fn lemma_diverse_choice_through_permutation(
    t: Seq<RelayInfoView>,
    perm: Seq<usize>,
    pos: Seq<int>,
) -> (moved: Seq<int>)
    requires
        is_index_permutation(perm, t.len()),
        is_diverse_choice(t, pos),
    ensures
        moved.len() == pos.len(),
        is_diverse_choice(perm_views(t, perm), moved),
{
    lemma_permutation_covers(perm, t.len());
    let order = perm_views(t, perm);
    let moved = pos.map_values(|p: int| choose|j: int| 0 <= j < perm.len() && perm[j] == p);
    assert forall|k: int| 0 <= k < moved.len() implies 0 <= #[trigger] moved[k] < order.len()
        && order[moved[k]] == t[pos[k]] by {
        assert(0 <= pos[k] < t.len());
        assert(lists_position(perm, pos[k]));
    }
    assert(moved.no_duplicates()) by {
        assert forall|a: int, b: int| 0 <= a < moved.len() && 0 <= b < moved.len() && a != b implies moved[a]
            != moved[b] by {
            assert(0 <= pos[a] < t.len());
            assert(0 <= pos[b] < t.len());
            assert(lists_position(perm, pos[a]));
            assert(lists_position(perm, pos[b]));
            assert(pos[a] != pos[b]);
        }
    }
    assert forall|a: int, b: int|
        0 <= a < moved.len() && 0 <= b < moved.len() && a != b && (#[trigger] key_at(order, moved[a]))
            is Some implies key_at(order, moved[a]) != #[trigger] key_at(order, moved[b]) by {
        assert(order[moved[a]] == t[pos[a]]);
        assert(order[moved[b]] == t[pos[b]]);
        assert(key_at(order, moved[a]) == key_at(t, pos[a]));
        assert(key_at(order, moved[b]) == key_at(t, pos[b]));
        assert(key_at(t, pos[a]) is Some);
        assert(key_at(t, pos[a]) != key_at(t, pos[b]));
    }
    moved
}

/// With enough diverse relays available, none is wasted on a repeat:
/// when the topology `t` has at least `hop_count` relays no two of which
/// share a known subnet, a diverse pick from any arrangement of `t`
/// repeats no known subnet.
pub proof fn lemma_diverse_path_when_diverse_relays_exist(
    t: Seq<RelayInfoView>,
    perm: Seq<usize>,
    pos: Seq<int>,
    hop_count: nat,
)
    requires
        is_index_permutation(perm, t.len()),
        is_diverse_choice(t, pos),
        hop_count <= pos.len(),
    ensures
        !shares_subnet(spec_diverse_pick(perm_views(t, perm), hop_count)),
{
    let moved = lemma_diverse_choice_through_permutation(t, perm, pos);
    lemma_diverse_choice_bound(perm_views(t, perm), moved);
    lemma_diverse_pick_avoids_shared_subnets(perm_views(t, perm), hop_count);
}

} // verus!
