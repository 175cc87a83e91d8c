//! The resource a lock protects: an externally supplied partition of the
//! key space into shards.
//!
//! The lock service only needs the pure part of a resource: the enumeration
//! of `(shard id, key)` pairs that sizes the registry at boot, and the
//! deterministic routing of a key to its shard.  Performing a real access
//! while a key is held, and drawing the random offsets that drive a
//! workload, are the surrounding program's business.
//!
//! The filesystem resource names its keys `shard/item` with both parts in
//! decimal, one directory per shard and one file per item.

use vstd::prelude::*;
use vstd::arithmetic::div_mod::lemma_fundamental_div_mod;

verus! {

/// A partitioned key space.  `shard_of` is the mathematical partition; the
/// two methods must agree with it, which makes routing deterministic and
/// identical on client and server.
pub trait Resource {
    /// The shard id that `key` belongs to.
    spec fn shard_of(&self, key: Seq<char>) -> Seq<char>;

    /// Every key of the resource, tagged with its shard id.
    fn keys(&self) -> (r: Vec<(String, String)>)
        ensures
            forall|i: int| 0 <= i < r@.len()
                ==> (#[trigger] r@[i]).0@ == self.shard_of(r@[i].1@),
    ;

    /// The shard id of `key`.
    fn get_shard_id(&self, key: &str) -> (r: String)
        ensures
            r@ == self.shard_of(key@),
    ;
}

/// The decimal digit characters.
pub open spec fn dec_digit(d: int) -> char {
    if d == 0 {
        '0'
    } else if d == 1 {
        '1'
    } else if d == 2 {
        '2'
    } else if d == 3 {
        '3'
    } else if d == 4 {
        '4'
    } else if d == 5 {
        '5'
    } else if d == 6 {
        '6'
    } else if d == 7 {
        '7'
    } else if d == 8 {
        '8'
    } else {
        '9'
    }
}

/// The value of a digit character, or `-1`.
pub open spec fn digit_val(c: char) -> int {
    if c == '0' {
        0
    } else if c == '1' {
        1
    } else if c == '2' {
        2
    } else if c == '3' {
        3
    } else if c == '4' {
        4
    } else if c == '5' {
        5
    } else if c == '6' {
        6
    } else if c == '7' {
        7
    } else if c == '8' {
        8
    } else if c == '9' {
        9
    } else {
        -1
    }
}

/// The canonical decimal representation of `n`: no sign, no leading zero.
pub open spec fn dec_rep(n: nat) -> Seq<char>
    decreases n,
{
    if n < 10 {
        seq![dec_digit(n as int)]
    } else {
        dec_rep(n / 10) + seq![dec_digit((n % 10) as int)]
    }
}

/// The numeric value of a digit string.
pub open spec fn dec_val(s: Seq<char>) -> int
    decreases s.len(),
{
    if s.len() == 0 {
        0
    } else {
        dec_val(s.drop_last()) * 10 + digit_val(s.last())
    }
}

/// A non-empty all-digit string.
pub open spec fn is_digits(s: Seq<char>) -> bool {
    s.len() > 0 && forall|i: int| 0 <= i < s.len() ==> digit_val(#[trigger] s[i]) >= 0
}

/// A decimal representation consists of digits (so never of `/`).
pub proof fn lemma_dec_rep_digits(n: nat)
    ensures
        is_digits(dec_rep(n)),
        forall|i: int| 0 <= i < dec_rep(n).len() ==> #[trigger] dec_rep(n)[i] != '/',
    decreases n,
{
    if n >= 10 {
        lemma_dec_rep_digits(n / 10);
        assert forall|i: int| 0 <= i < dec_rep(n).len() implies
            digit_val(#[trigger] dec_rep(n)[i]) >= 0 && dec_rep(n)[i] != '/' by {
            if i < dec_rep(n / 10).len() {
                assert(dec_rep(n)[i] == dec_rep(n / 10)[i]);
            }
        }
    }
}

/// Reading back the decimal representation gives the number.
pub proof fn lemma_dec_val_of_rep(n: nat)
    ensures
        dec_val(dec_rep(n)) == n,
    decreases n,
{
    if n < 10 {
        assert(dec_rep(n).drop_last() =~= Seq::<char>::empty());
        assert(dec_rep(n).last() == dec_digit(n as int));
        assert(dec_val(Seq::<char>::empty()) == 0);
        assert(digit_val(dec_digit(n as int)) == n);
    } else {
        lemma_dec_val_of_rep(n / 10);
        assert(dec_rep(n).drop_last() =~= dec_rep(n / 10));
        assert(dec_rep(n).last() == dec_digit((n % 10) as int));
        assert(n % 10 < 10) by (nonlinear_arith);
        assert(digit_val(dec_digit((n % 10) as int)) == n % 10);
        lemma_fundamental_div_mod(n as int, 10);
        assert(dec_val(dec_rep(n)) == (n / 10) * 10 + n % 10);
        assert((n / 10) * 10 + n % 10 == n) by (nonlinear_arith);
    }
}

/// Index of the first `/` in `s`, or the length when there is none.
pub open spec fn slash_index(s: Seq<char>) -> int
    decreases s.len(),
{
    if s.len() == 0 {
        0
    } else if s[0] == '/' {
        0
    } else {
        1 + slash_index(s.subrange(1, s.len() as int))
    }
}

/// The shard part of a key: everything before the first `/`.
pub open spec fn shard_prefix(s: Seq<char>) -> Seq<char> {
    s.subrange(0, slash_index(s))
}

/// `slash_index` is exactly the first position holding `/`.
pub proof fn lemma_slash_index_at(s: Seq<char>, j: int)
    requires
        0 <= j <= s.len(),
        j < s.len() ==> s[j] == '/',
        forall|w: int| 0 <= w < j ==> s[w] != '/',
    ensures
        slash_index(s) == j,
    decreases s.len(),
{
    if s.len() > 0 && s[0] != '/' {
        let rest = s.subrange(1, s.len() as int);
        assert forall|w: int| 0 <= w < j - 1 implies rest[w] != '/' by {
            assert(rest[w] == s[w + 1]);
        }
        lemma_slash_index_at(rest, j - 1);
    }
}

/// The key string of shard `s`, item `i`: `s/i` in decimal.
pub open spec fn key_of(s: nat, i: nat) -> Seq<char> {
    dec_rep(s) + seq!['/'] + dec_rep(i)
}

/// A well-formed key: `shard/item`, both in canonical decimal, both
/// fitting the id types.
pub open spec fn wf_key(key: Seq<char>) -> bool {
    exists|s: nat, i: nat| key == key_of(s, i) && s <= u32::MAX && i <= u32::MAX
}

/// The shard part of a well-formed key is the shard's decimal form.
pub proof fn lemma_key_parts(s: nat, i: nat)
    ensures
        slash_index(key_of(s, i)) == dec_rep(s).len(),
        shard_prefix(key_of(s, i)) == dec_rep(s),
        key_of(s, i).subrange(
            dec_rep(s).len() as int + 1,
            key_of(s, i).len() as int,
        ) == dec_rep(i),
{
    let k = key_of(s, i);
    lemma_dec_rep_digits(s);
    lemma_dec_rep_digits(i);
    assert(k[dec_rep(s).len() as int] == '/');
    assert forall|w: int| 0 <= w < dec_rep(s).len() implies k[w] != '/' by {
        assert(k[w] == dec_rep(s)[w]);
    }
    lemma_slash_index_at(k, dec_rep(s).len() as int);
    assert(shard_prefix(k) =~= dec_rep(s));
    assert(k.subrange(dec_rep(s).len() as int + 1, k.len() as int) =~= dec_rep(i));
}

/// The shard value named by a key (meaningful on well-formed keys).
pub open spec fn key_shard_val(key: Seq<char>) -> int {
    dec_val(shard_prefix(key))
}

/// The item value named by a key (meaningful on well-formed keys).
pub open spec fn key_item_val(key: Seq<char>) -> int {
    dec_val(key.subrange(slash_index(key) + 1, key.len() as int))
}

/// One digit as a string slice.
fn digit_str(d: u32) -> (r: &'static str)
    requires
        d < 10,
    ensures
        r@ =~= seq![dec_digit(d as int)],
{
    proof {
        reveal_strlit("0");
        reveal_strlit("1");
        reveal_strlit("2");
        reveal_strlit("3");
        reveal_strlit("4");
        reveal_strlit("5");
        reveal_strlit("6");
        reveal_strlit("7");
        reveal_strlit("8");
        reveal_strlit("9");
    }
    match d {
        0 => "0",
        1 => "1",
        2 => "2",
        3 => "3",
        4 => "4",
        5 => "5",
        6 => "6",
        7 => "7",
        8 => "8",
        _ => "9",
    }
}

/// Formats `n` in decimal.
pub fn u32_to_string(n: u32) -> (r: String)
    ensures
        r@ == dec_rep(n as nat),
    decreases n,
{
    if n < 10 {
        let r = digit_str(n).to_owned();
        r
    } else {
        proof {
            assert(n / 10 < n) by (nonlinear_arith)
                requires
                    n >= 10,
            ;
            assert(n % 10 < 10) by (nonlinear_arith);
        }
        let mut r = u32_to_string(n / 10);
        r.append(digit_str(n % 10));
        r
    }
}

/// The numeric value of one digit character, or `None`.
fn digit_of(c: char) -> (r: Option<u32>)
    ensures
        match r {
            Some(v) => digit_val(c) == v && v < 10,
            None => digit_val(c) == -1,
        },
{
    match c {
        '0' => Some(0),
        '1' => Some(1),
        '2' => Some(2),
        '3' => Some(3),
        '4' => Some(4),
        '5' => Some(5),
        '6' => Some(6),
        '7' => Some(7),
        '8' => Some(8),
        '9' => Some(9),
        _ => None,
    }
}

/// Parses a digit string into a `u32`: `None` when the string is empty,
/// holds a non-digit, or names a value too big.
pub fn parse_dec(s: &str) -> (r: Option<u32>)
    ensures
        match r {
            Some(v) => is_digits(s@) && dec_val(s@) == v,
            None => !is_digits(s@) || dec_val(s@) > u32::MAX,
        },
{
    let n = s.unicode_len();
    if n == 0 {
        return None;
    }
    let mut acc: u64 = 0;
    let mut i: usize = 0;
    while i < n
        invariant
            n == s@.len(),
            0 <= i <= n,
            forall|w: int| 0 <= w < i ==> digit_val(#[trigger] s@[w]) >= 0,
            acc == dec_val(s@.subrange(0, i as int)),
            acc <= u32::MAX,
        decreases n - i,
    {
        let c = s.get_char(i);
        match digit_of(c) {
            None => {
                return None;
            },
            Some(d) => {
                let next: u64 = acc * 10 + d as u64;
                proof {
                    assert(s@.subrange(0, i as int + 1).drop_last() =~= s@.subrange(0, i as int));
                    assert(s@.subrange(0, i as int + 1).last() == s@[i as int]);
                }
                if next > u32::MAX as u64 {
                    proof {
                        if forall|w: int| 0 <= w < s@.len() ==> digit_val(#[trigger] s@[w]) >= 0 {
                            lemma_dec_val_grows(s@, i as int + 1);
                        }
                    }
                    return None;
                }
                acc = next;
            },
        }
        i = i + 1;
    }
    proof {
        assert(s@.subrange(0, n as int) =~= s@);
    }
    Some(acc as u32)
}

/// A digit string's value only grows as it gets longer.
proof fn lemma_dec_val_grows(s: Seq<char>, j: int)
    requires
        0 <= j <= s.len(),
        forall|w: int| 0 <= w < s.len() ==> digit_val(#[trigger] s[w]) >= 0,
    ensures
        dec_val(s.subrange(0, j)) <= dec_val(s),
    decreases s.len() - j,
{
    if j < s.len() {
        lemma_dec_val_grows(s, j + 1);
        let a = s.subrange(0, j);
        let b = s.subrange(0, j + 1);
        assert(b.drop_last() =~= a);
        assert(b.last() == s[j]);
        assert forall|w: int| 0 <= w < a.len() implies digit_val(#[trigger] a[w]) >= 0 by {
            assert(a[w] == s[w]);
        }
        lemma_dec_val_nonneg(a);
        assert(dec_val(b) == dec_val(a) * 10 + digit_val(s[j]));
        assert(dec_val(a) <= dec_val(a) * 10) by (nonlinear_arith)
            requires
                dec_val(a) >= 0,
        ;
    } else {
        assert(s.subrange(0, j) =~= s);
    }
}

/// A digit string's value is non-negative.
proof fn lemma_dec_val_nonneg(s: Seq<char>)
    requires
        forall|w: int| 0 <= w < s.len() ==> digit_val(#[trigger] s[w]) >= 0,
    ensures
        dec_val(s) >= 0,
    decreases s.len(),
{
    if s.len() > 0 {
        let a = s.drop_last();
        assert forall|w: int| 0 <= w < a.len() implies digit_val(#[trigger] a[w]) >= 0 by {
            assert(a[w] == s[w]);
        }
        lemma_dec_val_nonneg(a);
        assert(digit_val(s.last()) >= 0);
        assert(dec_val(a) * 10 >= 0) by (nonlinear_arith)
            requires
                dec_val(a) >= 0,
        ;
    }
}

/// Formats the key of shard `shard_id`, item `item_id`.
pub fn format_key(shard_id: u32, item_id: u32) -> (r: String)
    ensures
        r@ == key_of(shard_id as nat, item_id as nat),
{
    proof {
        reveal_strlit("/");
    }
    let mut r = u32_to_string(shard_id);
    r.append("/");
    let item = u32_to_string(item_id);
    r.append(item.as_str());
    proof {
        assert(r@ =~= key_of(shard_id as nat, item_id as nat));
    }
    r
}

/// Splits a well-formed key into its shard and item numbers.
pub fn parse_key(key: &str) -> (r: (u32, u32))
    requires
        wf_key(key@),
    ensures
        key@ == key_of(r.0 as nat, r.1 as nat),
        r.0 == key_shard_val(key@),
        r.1 == key_item_val(key@),
{
    let ghost s0 = choose|s: nat, i: nat|
        key@ == key_of(s, i) && s <= u32::MAX && i <= u32::MAX;
    proof {
        lemma_key_parts(s0.0, s0.1);
        lemma_dec_val_of_rep(s0.0);
        lemma_dec_val_of_rep(s0.1);
        lemma_dec_rep_digits(s0.0);
        lemma_dec_rep_digits(s0.1);
    }
    let n = key.unicode_len();
    let mut j: usize = 0;
    while j < n && key.get_char(j) != '/'
        invariant
            n == key@.len(),
            0 <= j <= n,
            forall|w: int| 0 <= w < j ==> key@[w] != '/',
        decreases n - j,
    {
        j = j + 1;
    }
    proof {
        lemma_slash_index_at(key@, j as int);
    }
    let shard_part = key.substring_char(0, j);
    let item_part = key.substring_char(j + 1, n);
    let shard_id = parse_dec(shard_part);
    let item_id = parse_dec(item_part);
    proof {
        assert(shard_part@ == dec_rep(s0.0));
        assert(item_part@ == dec_rep(s0.1));
    }
    (shard_id.unwrap(), item_id.unwrap())
}

/// The wrap-around perturbation of an id: move `value` by `1 + abs_offset`
/// steps, down when `negate` is set, and wrap into `0..max`.
pub open spec fn perturbed(value: u32, abs_offset: u64, negate: bool, max: u32) -> int {
    if negate {
        (value - (1 + abs_offset as int)) % (max as int)
    } else {
        (value + 1 + abs_offset as int) % (max as int)
    }
}

/// Applies a drawn offset to an id, wrapping around `max`.  The draw
/// itself (an offset magnitude and a direction) is the caller's.
pub fn perturb(value: u32, abs_offset: u64, negate: bool, max: u32) -> (r: u32)
    requires
        max > 0,
    ensures
        r == perturbed(value, abs_offset, negate, max),
        r < max,
{
    let m: u128 = max as u128;
    let off: u128 = ((1u128 + abs_offset as u128) % m) as u128;
    let r: u128 = if negate {
        (value as u128 + m - off) % m
    } else {
        (value as u128 + off) % m
    };
    proof {
        let mi = max as int;
        let step = 1 + abs_offset as int;
        let offi = step % mi;
        vstd::arithmetic::div_mod::lemma_mod_bound(step, mi);
        vstd::arithmetic::div_mod::lemma_mod_twice(step, mi);
        if negate {
            vstd::arithmetic::div_mod::lemma_sub_mod_noop(value + mi, offi, mi);
            vstd::arithmetic::div_mod::lemma_mod_add_multiples_vanish(value as int, mi);
            assert((value + mi - offi) % mi == ((value + mi) % mi - offi % mi) % mi);
            assert((value + mi) % mi == value as int % mi);
            vstd::arithmetic::div_mod::lemma_sub_mod_noop(value as int, step, mi);
            assert((value - step) % mi == (value as int % mi - offi) % mi);
            assert((value + mi - offi) % mi == (value - step) % mi);
            vstd::arithmetic::div_mod::lemma_mod_bound(value + mi - offi, mi);
        } else {
            vstd::arithmetic::div_mod::lemma_add_mod_noop(value as int, offi, mi);
            vstd::arithmetic::div_mod::lemma_add_mod_noop(value as int, step, mi);
            assert((value + offi) % mi == (value as int % mi + offi % mi) % mi);
            assert((value + step) % mi == (value as int % mi + offi) % mi);
            assert((value + offi) % mi == (value + step) % mi);
            vstd::arithmetic::div_mod::lemma_mod_bound(value + offi, mi);
        }
    }
    r as u32
}

/// The filesystem resource: `shard_count` directories of `item_count`
/// files each under `base_path`; the key `s/i` names file `i` of
/// directory `s`.
pub struct FileSystem {
    pub base_path: String,
    pub shard_count: u32,
    pub item_count: u32,
}

impl FileSystem {
    pub fn new(base_path: String, shard_count: u32, item_count: u32) -> (r: FileSystem)
        ensures
            r.base_path == base_path,
            r.shard_count == shard_count,
            r.item_count == item_count,
    {
        FileSystem { base_path, shard_count, item_count }
    }

    /// Moves a key by drawn offsets: the item id always moves by
    /// `1 + item_offset` steps (down when `item_negate`), wrapping within
    /// the shard; the shard id moves the same way by the second draw, but
    /// only when the draw said to switch shards.  The draws themselves are
    /// the caller's (the workload draws them at random).
    pub fn perturb_key(
        &self,
        key: &str,
        item_offset: u64,
        item_negate: bool,
        switch_shard: bool,
        shard_offset: u64,
        shard_negate: bool,
    ) -> (r: String)
        requires
            wf_key(key@),
            self.item_count > 0,
            self.shard_count > 0,
        ensures
            r@ == ({
                let s = key_shard_val(key@) as u32;
                let i = key_item_val(key@) as u32;
                let i2 = perturbed(i, item_offset, item_negate, self.item_count);
                let s2 = if switch_shard {
                    perturbed(s, shard_offset, shard_negate, self.shard_count)
                } else {
                    s as int
                };
                key_of(s2 as nat, i2 as nat)
            }),
    {
        let parts = parse_key(key);
        let item = perturb(parts.1, item_offset, item_negate, self.item_count);
        let shard = if switch_shard {
            perturb(parts.0, shard_offset, shard_negate, self.shard_count)
        } else {
            parts.0
        };
        format_key(shard, item)
    }
}

impl Resource for FileSystem {
    open spec fn shard_of(&self, key: Seq<char>) -> Seq<char> {
        shard_prefix(key)
    }

    /// Enumerates `shard_count * item_count` keys, grouped by shard, in
    /// order: shard `s` contributes the keys `s/0` through
    /// `s/(item_count - 1)`, each tagged with the shard id `s` in decimal.
    fn keys(&self) -> (r: Vec<(String, String)>)
        ensures
            forall|a: int| 0 <= a < r@.len()
                ==> (#[trigger] r@[a]).0@ == self.shard_of(r@[a].1@),
            r@.len() == self.shard_count * self.item_count,
            forall|a: int| 0 <= a < r@.len() ==> (#[trigger] r@[a]).1@ == key_of(
                (a / self.item_count as int) as nat,
                (a % self.item_count as int) as nat,
            ),
    {
        let ic = self.item_count;
        let mut r: Vec<(String, String)> = Vec::new();
        let mut s: u32 = 0;
        while s < self.shard_count
            invariant
                ic == self.item_count,
                0 <= s <= self.shard_count,
                r@.len() == s * ic,
                ic > 0 || r@.len() == 0,
                forall|a: int| 0 <= a < r@.len()
                    ==> (#[trigger] r@[a]).0@ == self.shard_of(r@[a].1@),
                forall|a: int| 0 <= a < r@.len() ==> (#[trigger] r@[a]).1@ == key_of(
                    (a / ic as int) as nat,
                    (a % ic as int) as nat,
                ),
            decreases self.shard_count - s,
        {
            let sid = u32_to_string(s);
            let ghost base = r@.len() as int;
            let mut i: u32 = 0;
            while i < ic
                invariant
                    ic == self.item_count,
                    0 <= s < self.shard_count,
                    0 <= i <= ic,
                    sid@ == dec_rep(s as nat),
                    base == s * ic,
                    r@.len() == base + i,
                    forall|a: int| 0 <= a < r@.len()
                        ==> (#[trigger] r@[a]).0@ == self.shard_of(r@[a].1@),
                    forall|a: int| 0 <= a < r@.len() ==> (#[trigger] r@[a]).1@ == key_of(
                        (a / ic as int) as nat,
                        (a % ic as int) as nat,
                    ),
                decreases ic - i,
            {
                let key = format_key(s, i);
                proof {
                    lemma_key_parts(s as nat, i as nat);
                }
                r.push((sid.clone(), key));
                proof {
                    let last = r@.len() - 1;
                    vstd::arithmetic::div_mod::lemma_fundamental_div_mod_converse(
                        last,
                        ic as int,
                        s as int,
                        i as int,
                    );
                    assert((r@[last]).1@ == key_of(
                        (last / ic as int) as nat,
                        (last % ic as int) as nat,
                    ));
                }
                i = i + 1;
            }
            s = s + 1;
            proof {
                assert(s * ic == base + ic) by (nonlinear_arith)
                    requires
                        base == (s - 1) * ic,
                ;
            }
        }
        r
    }

    /// Everything before the first `/` of `key` (the whole key when there
    /// is no `/`).
    fn get_shard_id(&self, key: &str) -> (r: String)
        ensures
            r@ == self.shard_of(key@),
    {
        let n = key.unicode_len();
        let mut j: usize = 0;
        while j < n && key.get_char(j) != '/'
            invariant
                n == key@.len(),
                0 <= j <= n,
                forall|w: int| 0 <= w < j ==> key@[w] != '/',
            decreases n - j,
        {
            j = j + 1;
        }
        proof {
            lemma_slash_index_at(key@, j as int);
        }
        let part = key.substring_char(0, j);
        part.to_owned()
    }
}

} // verus!
