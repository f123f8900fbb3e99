//! The on-disk text format of the two collections: length-prefixed
//! fields, every record self-delimiting, with a proof that decoding
//! inverts encoding. The durable layer writes and reads these texts.

use vstd::prelude::*;

use crate::entities::FolderModel;
use crate::entities::WorldModel;
use crate::entities::WorldV;
use crate::entities::FolderV;
use crate::entities::ShareInfo;
use crate::entities::ShareInfoV;
use crate::text::dec_digits;
use crate::text::is_digit;
use crate::text::lemma_dec_digits;
use crate::text::spec_parse_digits;

verus! {

/// A number: its decimal digits closed by a colon.
pub open spec fn enc_u64(n: nat) -> Seq<char> {
    dec_digits(n) + seq![':']
}

/// A signed number: a minus sign where negative, then the magnitude.
pub open spec fn enc_i64(x: int) -> Seq<char> {
    if x < 0 {
        seq!['-'] + enc_u64((-x) as nat)
    } else {
        enc_u64(x as nat)
    }
}

/// A flag: one digit.
pub open spec fn enc_bool(b: bool) -> Seq<char> {
    if b {
        seq!['1']
    } else {
        seq!['0']
    }
}

/// A text: its length, then its characters verbatim.
pub open spec fn enc_str(s: Seq<char>) -> Seq<char> {
    enc_u64(s.len()) + s
}

/// An optional text: a presence flag, then the text where present.
pub open spec fn enc_opt_str(s: Option<Seq<char>>) -> Seq<char> {
    match s {
        Some(t) => enc_bool(true) + enc_str(t),
        None => enc_bool(false),
    }
}

/// An optional signed number.
pub open spec fn enc_opt_i64(x: Option<i64>) -> Seq<char> {
    match x {
        Some(v) => enc_bool(true) + enc_i64(v as int),
        None => enc_bool(false),
    }
}

/// A list of texts: its count, then the texts in order.
pub open spec fn enc_str_list_items(l: Seq<Seq<char>>) -> Seq<char>
    decreases l.len(),
{
    if l.len() == 0 {
        Seq::<char>::empty()
    } else {
        enc_str_list_items(l.drop_last()) + enc_str(l.last())
    }
}

/// A list of texts: its count, then the texts in order.
pub open spec fn enc_str_list(l: Seq<Seq<char>>) -> Seq<char> {
    enc_u64(l.len()) + enc_str_list_items(l)
}

/// A folder record: name, members, share handle, color.
pub open spec fn enc_folder(f: FolderV) -> Seq<char> {
    enc_str(f.folder_name) + enc_str_list(f.world_ids) + (match f.share {
        Some(s) => enc_bool(true) + enc_str(s.id) + enc_i64(s.expiry_time as int),
        None => enc_bool(false),
    }) + enc_opt_str(f.color)
}

/// The folder collection: its count, then the records in order.
pub open spec fn enc_folder_items(fs: Seq<FolderV>) -> Seq<char>
    decreases fs.len(),
{
    if fs.len() == 0 {
        Seq::<char>::empty()
    } else {
        enc_folder_items(fs.drop_last()) + enc_folder(fs.last())
    }
}

/// The folder collection: its count, then the records in order.
pub open spec fn enc_folders(fs: Seq<FolderV>) -> Seq<char> {
    enc_u64(fs.len()) + enc_folder_items(fs)
}

// ---------------------------------------------------------------------
// Encoders
// ---------------------------------------------------------------------

/// Appends a number's encoding.
pub fn put_u64(out: &mut Vec<char>, n: u64)
    ensures
        final(out)@ == old(out)@ + enc_u64(n as nat),
{
    let mut digits = crate::text::u128_to_dec_chars(n as u128);
    out.append(&mut digits);
    out.push(':');
    proof {
        assert(out@ =~= old(out)@ + enc_u64(n as nat));
    }
}

/// Appends a signed number's encoding.
pub fn put_i64(out: &mut Vec<char>, x: i64)
    ensures
        final(out)@ == old(out)@ + enc_i64(x as int),
{
    if x < 0 {
        out.push('-');
        let magnitude = (-(x as i128)) as u128;
        let mut digits = crate::text::u128_to_dec_chars(magnitude);
        out.append(&mut digits);
        out.push(':');
        proof {
            assert(out@ =~= old(out)@ + enc_i64(x as int));
        }
    } else {
        let mut digits = crate::text::u128_to_dec_chars(x as u128);
        out.append(&mut digits);
        out.push(':');
        proof {
            assert(out@ =~= old(out)@ + enc_i64(x as int));
        }
    }
}

/// Appends a flag's encoding.
pub fn put_bool(out: &mut Vec<char>, b: bool)
    ensures
        final(out)@ == old(out)@ + enc_bool(b),
{
    if b {
        out.push('1');
    } else {
        out.push('0');
    }
    proof {
        assert(out@ =~= old(out)@ + enc_bool(b));
    }
}

/// Appends a text's encoding. (Any text held in memory fits the length
/// prefix.)
pub fn put_str(out: &mut Vec<char>, s: &String)
    ensures
        final(out)@ == old(out)@ + enc_str(s@),
{
    let cs = crate::text::chars_of_str(s.as_str());
    proof {
        vstd::std_specs::vec::axiom_spec_len(&cs);
        assert(s@.len() <= u64::MAX);
    }
    put_u64(out, cs.len() as u64);
    let ghost mid = out@;
    let mut i: usize = 0;
    while i < cs.len()
        invariant
            0 <= i <= cs@.len(),
            cs@ == s@,
            out@ == mid + s@.subrange(0, i as int),
        decreases cs@.len() - i,
    {
        out.push(cs[i]);
        proof {
            assert(out@ =~= mid + s@.subrange(0, i + 1));
        }
        i = i + 1;
    }
    proof {
        assert(out@ =~= old(out)@ + enc_str(s@));
    }
}

/// Appends a text list's encoding.
pub fn put_str_list(out: &mut Vec<char>, l: &Vec<String>)
    ensures
        final(out)@ == old(out)@ + enc_str_list(l.deep_view()),
{
    proof {
        vstd::std_specs::vec::axiom_spec_len(l);
    }
    put_u64(out, l.len() as u64);
    proof {
        assert(l.deep_view().len() == l@.len());
    }
    let ghost mid = out@;
    let mut i: usize = 0;
    proof {
        assert(enc_str_list_items(l.deep_view().subrange(0, 0)) =~= Seq::<char>::empty());
        assert(out@ =~= mid + enc_str_list_items(l.deep_view().subrange(0, 0)));
    }
    while i < l.len()
        invariant
            0 <= i <= l@.len(),
            l.deep_view().len() == l@.len(),
            out@ == mid + enc_str_list_items(l.deep_view().subrange(0, i as int)),
        decreases l@.len() - i,
    {
        put_str(out, &l[i]);
        proof {
            let dv = l.deep_view();
            assert(dv.subrange(0, i + 1).drop_last() =~= dv.subrange(0, i as int));
            assert(dv.subrange(0, i + 1).last() == l@[i as int]@);
            assert(out@ =~= mid + enc_str_list_items(dv.subrange(0, i + 1)));
        }
        i = i + 1;
    }
    proof {
        assert(l.deep_view().subrange(0, l@.len() as int) =~= l.deep_view());
    }
}

/// Whether a folder's texts fit the format's length prefixes; anything
/// held in memory does.
pub open spec fn folder_sizes_ok(f: FolderV) -> bool {
    f.folder_name.len() <= u64::MAX && f.world_ids.len() <= u64::MAX && (forall|i: int|
        0 <= i < f.world_ids.len() ==> (#[trigger] f.world_ids[i]).len() <= u64::MAX) && (
    match f.share {
        Some(s) => s.id.len() <= u64::MAX,
        None => true,
    }) && (match f.color {
        Some(c) => c.len() <= u64::MAX,
        None => true,
    })
}

/// Appends a folder record's encoding.
pub fn put_folder(out: &mut Vec<char>, f: &FolderModel)
    ensures
        final(out)@ == old(out)@ + enc_folder(f@),
{
    put_str(out, &f.folder_name);
    put_str_list(out, &f.world_ids);
    match &f.share {
        Some(s) => {
            put_bool(out, true);
            put_str(out, &s.id);
            put_i64(out, s.expiry_time);
        },
        None => {
            put_bool(out, false);
        },
    }
    match &f.color {
        Some(c) => {
            put_bool(out, true);
            put_str(out, c);
        },
        None => {
            put_bool(out, false);
        },
    }
    proof {
        assert(out@ =~= old(out)@ + enc_folder(f@));
    }
}

/// Encodes the folder collection.
pub fn encode_folders(folders: &Vec<FolderModel>) -> (r: String)
    ensures
        r@ == enc_folders(crate::store::fviews(folders@)),
{
    let mut out: Vec<char> = Vec::new();
    proof {
        vstd::std_specs::vec::axiom_spec_len(folders);
    }
    put_u64(&mut out, folders.len() as u64);
    let ghost fv = crate::store::fviews(folders@);
    let ghost mid = out@;
    let mut i: usize = 0;
    proof {
        assert(fv.len() == folders@.len());
        assert(enc_folder_items(fv.subrange(0, 0)) =~= Seq::<char>::empty());
        assert(out@ =~= mid + enc_folder_items(fv.subrange(0, 0)));
    }
    while i < folders.len()
        invariant
            0 <= i <= folders@.len(),
            fv == crate::store::fviews(folders@),
            fv.len() == folders@.len(),
            out@ == mid + enc_folder_items(fv.subrange(0, i as int)),
        decreases folders@.len() - i,
    {
        proof {
            assert(fv[i as int] == folders@[i as int]@);
        }
        put_folder(&mut out, &folders[i]);
        proof {
            assert(fv.subrange(0, i + 1).drop_last() =~= fv.subrange(0, i as int));
            assert(fv.subrange(0, i + 1).last() == fv[i as int]);
            assert(out@ =~= mid + enc_folder_items(fv.subrange(0, i + 1)));
        }
        i = i + 1;
    }
    proof {
        assert(fv.subrange(0, fv.len() as int) =~= fv);
        assert(out@ =~= enc_folders(fv));
    }
    crate::text::string_from_chars(out.as_slice())
}


/// Within a suffix equal to `e + rest`, the characters of `e` sit at
/// their offsets from `i`, and `e` fits before the end.
proof fn lemma_suffix_index(v: Seq<char>, i: int, e: Seq<char>, rest: Seq<char>, a: int)
    requires
        0 <= i <= v.len(),
        v.subrange(i, v.len() as int) == e + rest,
        0 <= a < e.len(),
    ensures
        i + e.len() <= v.len(),
        v[i + a] == e[a],
{
    assert(v.subrange(i, v.len() as int).len() == e.len() + rest.len());
    assert(v.subrange(i, v.len() as int)[a] == v[i + a]);
    assert((e + rest)[a] == e[a]);
}

/// Consuming `e` from a suffix equal to `e + rest` leaves `rest`.
proof fn lemma_suffix_chop(v: Seq<char>, i: int, e: Seq<char>, rest: Seq<char>)
    requires
        0 <= i <= v.len(),
        v.subrange(i, v.len() as int) == e + rest,
    ensures
        i + e.len() <= v.len(),
        v.subrange(i + e.len(), v.len() as int) == rest,
    decreases 0int,
{
    assert(v.subrange(i, v.len() as int).len() == e.len() + rest.len());
    assert forall|a: int| 0 <= a < rest.len() implies v.subrange(
        i + e.len(),
        v.len() as int,
    )[a] == rest[a] by {
        assert(v.subrange(i, v.len() as int)[e.len() + a] == (e + rest)[e.len() + a]);
        assert(v.subrange(i + e.len(), v.len() as int)[a] == v[i + e.len() + a]);
        assert(v.subrange(i, v.len() as int)[e.len() + a] == v[i + e.len() + a]);
    }
    assert(v.subrange(i + e.len(), v.len() as int) =~= rest);
}

// ---------------------------------------------------------------------
// Decoders. Each decoder's contract says: on input that continues with
// the encoding of some value, it returns that value and stops right
// after it. What it returns on other input is unconstrained (the read
// protocol treats any failure as corruption).
// ---------------------------------------------------------------------

/// Reads a number's encoding at `i`.
pub fn get_u64(v: &Vec<char>, i: usize) -> (r: Option<(u64, usize)>)
    requires
        i <= v@.len(),
    ensures
        r matches Some(p) ==> i <= p.1 <= v@.len(),
        forall|n: nat, rest: Seq<char>|
            n <= u64::MAX && v@.subrange(i as int, v@.len() as int) == #[trigger] (enc_u64(n)
                + rest) ==> r == Some((n as u64, (i + enc_u64(n).len()) as usize)),
{
    let mut j: usize = i;
    while j < v.len() && v[j] != ':'
        invariant
            i <= j <= v@.len(),
            forall|a: int| i <= a < j ==> v@[a] != ':',
        decreases v@.len() - j,
    {
        j = j + 1;
    }
    if j == v.len() {
        proof {
            assert forall|n: nat, rest: Seq<char>|
                n <= u64::MAX && v@.subrange(i as int, v@.len() as int) == #[trigger] (enc_u64(n)
                    + rest) implies false by {
                lemma_dec_digits(n);
                let d = dec_digits(n);
                lemma_suffix_index(v@, i as int, enc_u64(n), rest, d.len() as int);
                assert(enc_u64(n)[d.len() as int] == ':');
                assert(v@[i + d.len()] == ':');
            }
        }
        return None;
    }
    let digits = crate::text::subvec(v.as_slice(), i, j);
    let parsed = crate::text::parse_digits_u128(digits.as_slice());
    proof {
        assert forall|n: nat, rest: Seq<char>|
            n <= u64::MAX && v@.subrange(i as int, v@.len() as int) == #[trigger] (enc_u64(n)
                + rest) implies parsed == Some(n as u128) && j == i + dec_digits(n).len() by {
            lemma_dec_digits(n);
            let d = dec_digits(n);
            lemma_suffix_index(v@, i as int, enc_u64(n), rest, d.len() as int);
            assert(enc_u64(n)[d.len() as int] == ':');
            assert(v@[i + d.len()] == ':');
            assert forall|a: int| 0 <= a < d.len() implies #[trigger] v@[i + a] == d[a] by {
                lemma_suffix_index(v@, i as int, enc_u64(n), rest, a);
                assert(enc_u64(n)[a] == d[a]);
            }
            assert(forall|a: int| 0 <= a < d.len() ==> is_digit(#[trigger] v@[i + a]));
            // The scan stops exactly at the closing colon.
            assert(j == i + d.len()) by {
                if (j as int) < i + d.len() {
                    assert(v@[i + (j - i)] == d[j - i]);
                    assert(v@[j as int] == v@[i + (j - i)]);
                    assert(is_digit(d[j - i]));
                }
            }
            assert(digits@ =~= d);
            assert(spec_parse_digits(digits@) == Some(n));
        }
    }
    match parsed {
        Some(m) => {
            if m <= 0xffffffffffffffff && j < v.len() {
                Some((m as u64, j + 1))
            } else {
                None
            }
        },
        None => None,
    }
}

/// Reads a signed number's encoding at `i`.
pub fn get_i64(v: &Vec<char>, i: usize) -> (r: Option<(i64, usize)>)
    requires
        i <= v@.len(),
    ensures
        r matches Some(p) ==> i <= p.1 <= v@.len(),
        forall|x: int, rest: Seq<char>|
            i64::MIN <= x <= i64::MAX && v@.subrange(i as int, v@.len() as int) == #[trigger] (
            enc_i64(x) + rest) ==> r == Some((x as i64, (i + enc_i64(x).len()) as usize)),
{
    if i < v.len() && v[i] == '-' {
        let inner = get_u64(v, i + 1);
        proof {
            assert forall|x: int, rest: Seq<char>|
                i64::MIN <= x <= i64::MAX && v@.subrange(i as int, v@.len() as int) == #[trigger] (
                enc_i64(x) + rest) implies x < 0 && v@.subrange(i + 1, v@.len() as int) == enc_u64(
                (-x) as nat,
            ) + rest by {
                if x >= 0 {
                    lemma_dec_digits(x as nat);
                    let d = dec_digits(x as nat);
                    lemma_suffix_index(v@, i as int, enc_i64(x), rest, 0);
                    assert(enc_i64(x)[0] == d[0]);
                    assert(v@[i as int] == d[0]);
                    assert(is_digit(d[0]));
                    assert(!is_digit('-'));
                    assert(false);
                }
                assert(enc_i64(x) =~= seq!['-'] + enc_u64((-x) as nat));
                assert(v@.subrange(i as int, v@.len() as int) =~= seq!['-'] + (enc_u64(
                    (-x) as nat,
                ) + rest));
                lemma_suffix_chop(v@, i as int, seq!['-'], enc_u64((-x) as nat) + rest);
            }
        }
        proof {
            assert forall|x: int, rest: Seq<char>|
                i64::MIN <= x <= i64::MAX && x >= 0 && v@.subrange(i as int, v@.len() as int)
                    == #[trigger] (enc_i64(x) + rest) implies false by {
                lemma_dec_digits(x as nat);
                let d = dec_digits(x as nat);
                assert(v@[i as int] == d[0]);
                assert(is_digit(d[0]));
            }
        }
        match inner {
            Some((m, next)) => {
                if m <= 9223372036854775808 && m >= 1 {
                    let value: i64 = if m == 9223372036854775808 {
                        i64::MIN
                    } else {
                        -(m as i64)
                    };
                    Some((value, next))
                } else {
                    None
                }
            },
            None => None,
        }
    } else {
        let inner = get_u64(v, i);
        proof {
            assert forall|x: int, rest: Seq<char>|
                i64::MIN <= x <= i64::MAX && v@.subrange(i as int, v@.len() as int) == #[trigger] (
                enc_i64(x) + rest) implies x >= 0 by {
                if x < 0 {
                    lemma_suffix_index(v@, i as int, enc_i64(x), rest, 0);
                    assert(enc_i64(x)[0] == '-');
                    assert(v@[i as int] == '-');
                    assert(false);
                }
            }
        }
        match inner {
            Some((m, next)) => {
                if m <= 0x7fffffffffffffff {
                    Some((m as i64, next))
                } else {
                    None
                }
            },
            None => None,
        }
    }
}

/// Reads a flag's encoding at `i`.
pub fn get_bool(v: &Vec<char>, i: usize) -> (r: Option<(bool, usize)>)
    requires
        i <= v@.len(),
    ensures
        r matches Some(p) ==> i <= p.1 <= v@.len(),
        forall|b: bool, rest: Seq<char>|
            v@.subrange(i as int, v@.len() as int) == #[trigger] (enc_bool(b) + rest) ==> r
                == Some((b, (i + 1) as usize)),
{
    if i < v.len() {
        let c = v[i];
        let r: Option<(bool, usize)> = if c == '1' {
            Some((true, i + 1))
        } else if c == '0' {
            Some((false, i + 1))
        } else {
            None
        };
        proof {
            assert forall|b: bool, rest: Seq<char>|
                v@.subrange(i as int, v@.len() as int) == #[trigger] (enc_bool(b) + rest) implies r
                == Some((b, (i + 1) as usize)) by {
                lemma_suffix_index(v@, i as int, enc_bool(b), rest, 0);
                if b {
                    assert(enc_bool(b)[0] == '1');
                } else {
                    assert(enc_bool(b)[0] == '0');
                }
            }
        }
        r
    } else {
        proof {
            assert forall|b: bool, rest: Seq<char>|
                v@.subrange(i as int, v@.len() as int) == #[trigger] (enc_bool(b) + rest) implies false by {
                assert(v@.subrange(i as int, v@.len() as int).len() == 0);
                assert((enc_bool(b) + rest).len() >= 1);
            }
        }
        None
    }
}

/// Reads a text's encoding at `i`.
pub fn get_str(v: &Vec<char>, i: usize) -> (r: Option<(String, usize)>)
    requires
        i <= v@.len(),
    ensures
        r matches Some(p) ==> i <= p.1 <= v@.len(),
        forall|s: Seq<char>, rest: Seq<char>|
            s.len() <= u64::MAX && v@.subrange(i as int, v@.len() as int) == #[trigger] (enc_str(s)
                + rest) ==> (r matches Some(p) && p.0@ == s && p.1 == i + enc_str(s).len()),
{
    let vlen = v.len();
    let len = get_u64(v, i);
    proof {
        assert forall|s: Seq<char>, rest: Seq<char>|
            s.len() <= u64::MAX && v@.subrange(i as int, v@.len() as int) == #[trigger] (enc_str(s)
                + rest) implies len == Some(
            ((s.len() as u64, (i + enc_u64(s.len()).len()) as usize)),
        ) && v@.subrange(
            (i + enc_u64(s.len()).len()) as int,
            v@.len() as int,
        ) == s + rest && s.len() + (i + enc_u64(s.len()).len()) <= vlen by {
            assert(v@.subrange(i as int, v@.len() as int) =~= enc_u64(s.len()) + (s + rest));
            lemma_suffix_chop(v@, i as int, enc_u64(s.len()), s + rest);
            assert(v@.subrange(
                (i + enc_u64(s.len()).len()) as int,
                v@.len() as int,
            ).len() == s.len() + rest.len());
        }
    }
    let (n, pos) = match len {
        Some(p) => p,
        None => {
            return None;
        },
    };
    if n > (vlen - pos) as u64 {
        return None;
    }
    let n_usize = n as usize;
    let piece = crate::text::subvec(v.as_slice(), pos, pos + n_usize);
    let out = crate::text::string_from_chars(piece.as_slice());
    proof {
        assert forall|s: Seq<char>, rest: Seq<char>|
            s.len() <= u64::MAX && v@.subrange(i as int, v@.len() as int) == #[trigger] (enc_str(s)
                + rest) implies out@ == s && pos + n_usize == i + enc_str(s).len() by {
            assert(v@.subrange(pos as int, v@.len() as int) == s + rest);
            assert forall|a: int| 0 <= a < s.len() implies piece@[a] == s[a] by {
                lemma_suffix_index(v@, pos as int, s, rest, a);
                assert(piece@[a] == v@[pos + a]);
            }
            assert(out@ =~= s);
        }
    }
    Some((out, pos + n_usize))
}

/// Reads a text list's encoding at `i`.
pub fn get_str_list(v: &Vec<char>, i: usize) -> (r: Option<(Vec<String>, usize)>)
    requires
        i <= v@.len(),
    ensures
        r matches Some(p) ==> i <= p.1 <= v@.len(),
        forall|l: Seq<Seq<char>>, rest: Seq<char>|
            list_sizes_ok(l) && v@.subrange(i as int, v@.len() as int) == #[trigger] (enc_str_list(
                l,
            ) + rest) ==> (r matches Some(p) && p.0.deep_view() == l && p.1 == i + enc_str_list(
                l,
            ).len()),
{
    let count_opt = get_u64(v, i);
    proof {
        assert forall|l: Seq<Seq<char>>, rest: Seq<char>|
            list_sizes_ok(l) && v@.subrange(i as int, v@.len() as int) == #[trigger] (enc_str_list(
                l,
            ) + rest) implies count_opt == Some(
            ((l.len() as u64, (i + enc_u64(l.len()).len()) as usize)),
        ) && v@.subrange(
            (i + enc_u64(l.len()).len()) as int,
            v@.len() as int,
        ) == enc_str_list_items(l) + rest by {
            assert(v@.subrange(i as int, v@.len() as int) =~= enc_u64(l.len()) + (
            enc_str_list_items(l) + rest));
            lemma_suffix_chop(v@, i as int, enc_u64(l.len()), enc_str_list_items(l) + rest);
        }
    }
    let (n, start) = match count_opt {
        Some(p) => p,
        None => {
            return None;
        },
    };
    let mut out: Vec<String> = Vec::new();
    let mut pos = start;
    let mut k: u64 = 0;
    proof {
        assert forall|l: Seq<Seq<char>>, rest: Seq<char>|
            list_sizes_ok(l) && l.len() == n && v@.subrange(start as int, v@.len() as int)
                == #[trigger] (enc_str_list_items(l) + rest) implies out.deep_view() =~= l.subrange(
            0,
            0,
        ) && pos == start + enc_str_list_items(l.subrange(0, 0)).len() && v@.subrange(
            pos as int,
            v@.len() as int,
        ) == enc_str_list_items(l.subrange(0, l.len() as int)) + rest by {
            assert(out.deep_view() =~= Seq::<Seq<char>>::empty());
            assert(l.subrange(0, 0) =~= Seq::<Seq<char>>::empty());
            assert(enc_str_list_items(l.subrange(0, 0)) =~= Seq::<char>::empty());
            assert(l.subrange(0, l.len() as int) =~= l);
        }
    }
    proof {
        assert forall|l: Seq<Seq<char>>, rest: Seq<char>|
            list_sizes_ok(l) && v@.subrange(i as int, v@.len() as int) == #[trigger] (enc_str_list(
                l,
            ) + rest) implies l.len() == n && start == i + enc_u64(l.len()).len() && v@.subrange(
            start as int,
            v@.len() as int,
        ) == enc_str_list_items(l) + rest by {
            assert(v@.subrange(i as int, v@.len() as int) =~= enc_u64(l.len()) + (
            enc_str_list_items(l) + rest));
            lemma_suffix_chop(v@, i as int, enc_u64(l.len()), enc_str_list_items(l) + rest);
            assert(v@.len() <= usize::MAX) by {
                vstd::std_specs::vec::axiom_spec_len(v);
            }
        }
    }
    while k < n
        invariant
            k <= n,
            i <= pos <= v@.len(),
            i <= start <= v@.len(),
            out@.len() == k,
            forall|l: Seq<Seq<char>>, rest: Seq<char>|
                list_sizes_ok(l) && v@.subrange(i as int, v@.len() as int) == #[trigger] (
                enc_str_list(l) + rest) ==> l.len() == n && start == i + enc_u64(l.len()).len()
                    && v@.subrange(start as int, v@.len() as int) == enc_str_list_items(l) + rest,
            forall|l: Seq<Seq<char>>, rest: Seq<char>|
                list_sizes_ok(l) && l.len() == n && v@.subrange(start as int, v@.len() as int)
                    == #[trigger] (enc_str_list_items(l) + rest) ==> out.deep_view()
                    =~= l.subrange(0, k as int) && pos == start + enc_str_list_items(
                    l.subrange(0, k as int),
                ).len() && v@.subrange(pos as int, v@.len() as int) == enc_str_list_items(
                    l.subrange(k as int, l.len() as int),
                ) + rest,
        decreases n - k,
    {
        let ghost pre_out = out.deep_view();
        let ghost pre_pos = pos as int;
        let item_opt = get_str(v, pos);
        proof {
            assert forall|l: Seq<Seq<char>>, rest: Seq<char>|
                list_sizes_ok(l) && l.len() == n && v@.subrange(start as int, v@.len() as int)
                    == #[trigger] (enc_str_list_items(l) + rest) implies (item_opt matches Some(p)
                && p.0@ == l[k as int] && p.1 == pre_pos + enc_str(l[k as int]).len()) by {
                lemma_items_head(l, k as int);
                assert(l[k as int].len() <= u64::MAX);
                assert(v@.subrange(pre_pos, v@.len() as int) =~= enc_str(l[k as int]) + (
                enc_str_list_items(l.subrange(k as int + 1, l.len() as int)) + rest));
            }
        }
        let (text, next) = match item_opt {
            Some(p) => p,
            None => {
                return None;
            },
        };
        let ghost item = (text@, next);
        out.push(text);
        pos = next;
        proof {
            assert forall|l: Seq<Seq<char>>, rest: Seq<char>|
                list_sizes_ok(l) && l.len() == n && v@.subrange(start as int, v@.len() as int)
                    == #[trigger] (enc_str_list_items(l) + rest) implies out.deep_view()
                =~= l.subrange(0, k as int + 1) && pos == start + enc_str_list_items(
                l.subrange(0, k as int + 1),
            ).len() && v@.subrange(pos as int, v@.len() as int) == enc_str_list_items(
                l.subrange(k as int + 1, l.len() as int),
            ) + rest by {
                lemma_items_head(l, k as int);
                assert(v@.subrange(pre_pos, v@.len() as int) =~= enc_str(l[k as int]) + (
                enc_str_list_items(l.subrange(k as int + 1, l.len() as int)) + rest));
                assert(text@ == l[k as int]);
                assert(out.deep_view() =~= pre_out.push(l[k as int]));
                assert(l.subrange(0, k as int + 1).drop_last() =~= l.subrange(0, k as int));
                assert(l.subrange(0, k as int + 1).last() == l[k as int]);
                assert(v@.subrange(pre_pos, v@.len() as int) == enc_str(l[k as int]) + (
                enc_str_list_items(l.subrange(k as int + 1, l.len() as int)) + rest));
                lemma_suffix_chop(
                    v@,
                    pre_pos,
                    enc_str(l[k as int]),
                    enc_str_list_items(l.subrange(k as int + 1, l.len() as int)) + rest,
                );
                assert(v@.subrange(pos as int, v@.len() as int) =~= enc_str_list_items(
                    l.subrange(k as int + 1, l.len() as int),
                ) + rest);
            }
        }
        k = k + 1;
    }
    proof {
        assert forall|l: Seq<Seq<char>>, rest: Seq<char>|
            list_sizes_ok(l) && v@.subrange(i as int, v@.len() as int) == #[trigger] (enc_str_list(
                l,
            ) + rest) implies out.deep_view() == l && pos == i + enc_str_list(l).len() by {
            assert(v@.subrange(i as int, v@.len() as int) =~= enc_u64(l.len()) + (
            enc_str_list_items(l) + rest));
            assert(count_opt == Some(
                ((l.len() as u64, (i + enc_u64(l.len()).len()) as usize)),
            ));
            assert(l.len() == n);
            lemma_suffix_chop(v@, i as int, enc_u64(l.len()), enc_str_list_items(l) + rest);
            assert(v@.len() <= usize::MAX) by {
                vstd::std_specs::vec::axiom_spec_len(v);
            }
            assert(start == i + enc_u64(l.len()).len());
            assert(v@.subrange(start as int, v@.len() as int) == enc_str_list_items(l) + rest);
            assert(out.deep_view() =~= l.subrange(0, k as int));
            assert(l.subrange(0, l.len() as int) =~= l);
            assert(out.deep_view() =~= l);
            assert(pos == start + enc_str_list_items(l).len());
            assert(enc_str_list(l).len() == enc_u64(l.len()).len() + enc_str_list_items(l).len());
        }
    }
    Some((out, pos))
}

/// What follows the name field in a folder's encoding.
pub open spec fn after_name(f: FolderV, rest: Seq<char>) -> Seq<char> {
    enc_str_list(f.world_ids) + after_ids(f, rest)
}

/// What follows the member list in a folder's encoding.
pub open spec fn after_ids(f: FolderV, rest: Seq<char>) -> Seq<char> {
    match f.share {
        Some(s) => enc_bool(true) + (enc_str(s.id) + enc_i64(s.expiry_time as int)) + (enc_opt_str(
            f.color,
        ) + rest),
        None => enc_bool(false) + (enc_opt_str(f.color) + rest),
    }
}

/// What follows the share presence flag in a folder's encoding.
pub open spec fn after_flag(f: FolderV, rest: Seq<char>) -> Seq<char> {
    match f.share {
        Some(s) => enc_str(s.id) + (enc_i64(s.expiry_time as int) + (enc_opt_str(f.color) + rest)),
        None => enc_opt_str(f.color) + rest,
    }
}

/// What follows the share handle in a folder's encoding.
pub open spec fn after_share(f: FolderV, rest: Seq<char>) -> Seq<char> {
    enc_opt_str(f.color) + rest
}

/// Reads a folder record's encoding at `i`.
#[verifier::rlimit(100)]
pub fn get_folder(v: &Vec<char>, i: usize) -> (r: Option<(FolderModel, usize)>)
    requires
        i <= v@.len(),
    ensures
        r matches Some(p) ==> i <= p.1 <= v@.len(),
        forall|f: FolderV, rest: Seq<char>|
            folder_sizes_ok(f) && v@.subrange(i as int, v@.len() as int) == #[trigger] (enc_folder(
                f,
            ) + rest) ==> (r matches Some(p) && p.0@ == f && p.1 == i + enc_folder(f).len()),
{
    let name_opt = get_str(v, i);
    proof {
        assert forall|f: FolderV, rest: Seq<char>|
            folder_sizes_ok(f) && v@.subrange(i as int, v@.len() as int) == #[trigger] (enc_folder(
                f,
            ) + rest) implies (name_opt matches Some(np) && np.0@ == f.folder_name && np.1 == i + enc_str(
            f.folder_name,
        ).len() && v@.subrange(np.1 as int, v@.len() as int) == after_name(f, rest)
            && list_sizes_ok(f.world_ids)) by {
            assert(v@.subrange(i as int, v@.len() as int) =~= enc_str(f.folder_name) + after_name(
                f,
                rest,
            ));
            lemma_suffix_chop(v@, i as int, enc_str(f.folder_name), after_name(f, rest));
        }
    }
    let (folder_name, p1) = match name_opt {
        Some(p) => p,
        None => {
            return None;
        },
    };
    let ids_opt = get_str_list(v, p1);
    proof {
        assert forall|f: FolderV, rest: Seq<char>|
            folder_sizes_ok(f) && v@.subrange(i as int, v@.len() as int) == #[trigger] (enc_folder(
                f,
            ) + rest) implies (ids_opt matches Some(ip) && ip.0.deep_view() == f.world_ids && ip.1
            == p1 + enc_str_list(f.world_ids).len() && v@.subrange(ip.1 as int, v@.len() as int)
            == after_ids(f, rest)) by {
            lemma_suffix_chop(v@, p1 as int, enc_str_list(f.world_ids), after_ids(f, rest));
        }
    }
    let (world_ids, p2) = match ids_opt {
        Some(p) => p,
        None => {
            return None;
        },
    };
    let share_flag_opt = get_bool(v, p2);
    proof {
        assert forall|f: FolderV, rest: Seq<char>|
            folder_sizes_ok(f) && v@.subrange(i as int, v@.len() as int) == #[trigger] (enc_folder(
                f,
            ) + rest) implies (share_flag_opt matches Some(bp) && bp.0 == (f.share is Some) && bp.1
            == p2 + 1 && v@.subrange(bp.1 as int, v@.len() as int) == after_flag(f, rest)) by {
            assert(ids_opt matches Some(ip) && ip.1 == p1 + enc_str_list(f.world_ids).len()
                && v@.subrange(ip.1 as int, v@.len() as int) == after_ids(f, rest));
            assert(v@.subrange(p2 as int, v@.len() as int) == after_ids(f, rest));
            assert(v@.len() <= usize::MAX) by {
                vstd::std_specs::vec::axiom_spec_len(v);
            }
            match f.share {
                Some(s) => {
                    assert(v@.subrange(p2 as int, v@.len() as int) =~= enc_bool(true) + after_flag(
                        f,
                        rest,
                    ));
                    lemma_suffix_chop(v@, p2 as int, enc_bool(true), after_flag(f, rest));
                },
                None => {
                    assert(v@.subrange(p2 as int, v@.len() as int) =~= enc_bool(false) + after_flag(
                        f,
                        rest,
                    ));
                    lemma_suffix_chop(v@, p2 as int, enc_bool(false), after_flag(f, rest));
                },
            }
        }
    }
    let (has_share, p3) = match share_flag_opt {
        Some(p) => p,
        None => {
            return None;
        },
    };
    let (share, p5): (Option<ShareInfo>, usize) = if has_share {
        let id_opt = get_str(v, p3);
        proof {
            assert forall|f: FolderV, rest: Seq<char>|
                folder_sizes_ok(f) && v@.subrange(i as int, v@.len() as int) == #[trigger] (
                enc_folder(f) + rest) implies (f.share matches Some(sv) && (id_opt matches Some(sp)
                && sp.0@ == sv.id && sp.1 == p3 + enc_str(sv.id).len() && v@.subrange(
                sp.1 as int,
                v@.len() as int,
            ) == enc_i64(sv.expiry_time as int) + (enc_opt_str(f.color) + rest))) by {
                let sv = f.share->Some_0;
                assert(v@.subrange(p3 as int, v@.len() as int) =~= enc_str(sv.id) + (enc_i64(
                    sv.expiry_time as int,
                ) + (enc_opt_str(f.color) + rest)));
                lemma_suffix_chop(
                    v@,
                    p3 as int,
                    enc_str(sv.id),
                    enc_i64(sv.expiry_time as int) + (enc_opt_str(f.color) + rest),
                );
            }
        }
        let (share_id, p4a) = match id_opt {
            Some(p) => p,
            None => {
                return None;
            },
        };
        let expiry_opt = get_i64(v, p4a);
        proof {
            assert forall|f: FolderV, rest: Seq<char>|
                folder_sizes_ok(f) && v@.subrange(i as int, v@.len() as int) == #[trigger] (
                enc_folder(f) + rest) implies (f.share matches Some(sv) && (expiry_opt matches Some(
                ep,
            ) && ep.0 == sv.expiry_time && ep.1 == p4a + enc_i64(sv.expiry_time as int).len()
                && v@.subrange(ep.1 as int, v@.len() as int) == enc_opt_str(f.color) + rest)) by {
                let sv = f.share->Some_0;
                assert(id_opt matches Some(sp) && sp.1 == p3 + enc_str(sv.id).len()
                    && v@.subrange(sp.1 as int, v@.len() as int) == enc_i64(sv.expiry_time as int)
                    + (enc_opt_str(f.color) + rest));
                assert(v@.subrange(p4a as int, v@.len() as int) == enc_i64(sv.expiry_time as int)
                    + (enc_opt_str(f.color) + rest));
                assert(v@.len() <= usize::MAX) by {
                    vstd::std_specs::vec::axiom_spec_len(v);
                }
                lemma_suffix_chop(
                    v@,
                    p4a as int,
                    enc_i64(sv.expiry_time as int),
                    enc_opt_str(f.color) + rest,
                );
            }
        }
        let (expiry, p4b) = match expiry_opt {
            Some(p) => p,
            None => {
                return None;
            },
        };
        (Some(ShareInfo { id: share_id, expiry_time: expiry }), p4b)
    } else {
        (None, p3)
    };
    proof {
        assert forall|f: FolderV, rest: Seq<char>|
            folder_sizes_ok(f) && v@.subrange(i as int, v@.len() as int) == #[trigger] (enc_folder(
                f,
            ) + rest) implies ((match (share, f.share) {
            (Some(ref si), Some(sv)) => si.id@ == sv.id && si.expiry_time == sv.expiry_time,
            (None, None) => true,
            _ => false,
        }) && v@.subrange(p5 as int, v@.len() as int) == after_share(f, rest)) by {
            assert(v@.len() <= usize::MAX) by {
                vstd::std_specs::vec::axiom_spec_len(v);
            }
        }
    }
    let color_flag_opt = get_bool(v, p5);
    proof {
        assert forall|f: FolderV, rest: Seq<char>|
            folder_sizes_ok(f) && v@.subrange(i as int, v@.len() as int) == #[trigger] (enc_folder(
                f,
            ) + rest) implies (color_flag_opt matches Some(cp) && cp.0 == (f.color is Some) && cp.1
            == p5 + 1 && (match f.color {
            Some(c) => v@.subrange(cp.1 as int, v@.len() as int) == enc_str(c) + rest,
            None => v@.subrange(cp.1 as int, v@.len() as int) == rest,
        })) by {
            assert(v@.len() <= usize::MAX) by {
                vstd::std_specs::vec::axiom_spec_len(v);
            }
            match f.color {
                Some(c) => {
                    assert(v@.subrange(p5 as int, v@.len() as int) =~= enc_bool(true) + (enc_str(c)
                        + rest));
                    lemma_suffix_chop(v@, p5 as int, enc_bool(true), enc_str(c) + rest);
                },
                None => {
                    assert(v@.subrange(p5 as int, v@.len() as int) =~= enc_bool(false) + rest);
                    lemma_suffix_chop(v@, p5 as int, enc_bool(false), rest);
                },
            }
        }
    }
    let (has_color, p6) = match color_flag_opt {
        Some(p) => p,
        None => {
            return None;
        },
    };
    let (color, p7): (Option<String>, usize) = if has_color {
        let color_opt = get_str(v, p6);
        proof {
            assert forall|f: FolderV, rest: Seq<char>|
                folder_sizes_ok(f) && v@.subrange(i as int, v@.len() as int) == #[trigger] (
                enc_folder(f) + rest) implies (f.color matches Some(cv) && (color_opt matches Some(
                cp,
            ) && cp.0@ == cv && cp.1 == p6 + enc_str(cv).len())) by {
                let cv = f.color->Some_0;
                lemma_suffix_chop(v@, p6 as int, enc_str(cv), rest);
            }
        }
        let (c, pc) = match color_opt {
            Some(p) => p,
            None => {
                return None;
            },
        };
        (Some(c), pc)
    } else {
        (None, p6)
    };
    let out = FolderModel { folder_name, world_ids, share, color };
    proof {
        assert forall|f: FolderV, rest: Seq<char>|
            folder_sizes_ok(f) && v@.subrange(i as int, v@.len() as int) == #[trigger] (enc_folder(
                f,
            ) + rest) implies out@ =~~= f && p7 == i + enc_folder(f).len() by {}
    }
    Some((out, p7))
}

/// Decodes the folder collection: on the exact text [`encode_folders`]
/// writes it returns the collection encoded, and it returns nothing on
/// any text that is not such an encoding (the decoded value re-encodes to
/// the input, letter for letter).
pub fn decode_folders(text: &str) -> (r: Option<Vec<FolderModel>>)
    ensures
        forall|fs: Seq<FolderV>|
            folders_sizes_ok(fs) && text@ == #[trigger] enc_folders(fs) ==> (r matches Some(out)
                && crate::store::fviews(out@) == fs),
        r matches Some(out) ==> text@ == enc_folders(crate::store::fviews(out@)),
{
    let v = crate::text::chars_of_str(text);
    let count_opt = get_u64(&v, 0);
    proof {
        assert forall|fs: Seq<FolderV>|
            folders_sizes_ok(fs) && text@ == #[trigger] enc_folders(fs) implies count_opt == Some(
            ((fs.len() as u64, enc_u64(fs.len()).len() as usize)),
        ) && v@.subrange(enc_u64(fs.len()).len() as int, v@.len() as int) == enc_folder_items(fs)
            + Seq::<char>::empty() by {
            assert(v@.subrange(0, v@.len() as int) =~= enc_u64(fs.len()) + (enc_folder_items(fs)
                + Seq::<char>::empty()));
            lemma_suffix_chop(v@, 0, enc_u64(fs.len()), enc_folder_items(fs) + Seq::<char>::empty());
            assert(v@.len() <= usize::MAX) by {
                vstd::std_specs::vec::axiom_spec_len(&v);
            }
        }
    }
    let (n, start) = match count_opt {
        Some(p) => p,
        None => {
            return None;
        },
    };
    let mut out: Vec<FolderModel> = Vec::new();
    let mut pos = start;
    let mut k: u64 = 0;
    proof {
        assert forall|fs: Seq<FolderV>|
            folders_sizes_ok(fs) && text@ == #[trigger] enc_folders(fs) implies fs.len() == n
            && start == enc_u64(fs.len()).len() && v@.subrange(start as int, v@.len() as int)
            == enc_folder_items(fs) + Seq::<char>::empty() && crate::store::fviews(out@)
            =~= fs.subrange(0, 0) && pos == start + enc_folder_items(fs.subrange(0, 0)).len()
            && v@.subrange(pos as int, v@.len() as int) == enc_folder_items(
            fs.subrange(0, fs.len() as int),
        ) + Seq::<char>::empty() by {
            assert(v@.subrange(0, v@.len() as int) =~= enc_u64(fs.len()) + (enc_folder_items(fs)
                + Seq::<char>::empty()));
            lemma_suffix_chop(v@, 0, enc_u64(fs.len()), enc_folder_items(fs) + Seq::<char>::empty());
            assert(v@.len() <= usize::MAX) by {
                vstd::std_specs::vec::axiom_spec_len(&v);
            }
            assert(enc_folder_items(fs.subrange(0, 0)) =~= Seq::<char>::empty());
            assert(crate::store::fviews(out@) =~= fs.subrange(0, 0));
            assert(fs.subrange(0, fs.len() as int) =~= fs);
        }
    }
    while k < n
        invariant
            k <= n,
            0 <= pos <= v@.len(),
            0 <= start <= v@.len(),
            out@.len() == k,
            forall|fs: Seq<FolderV>|
                folders_sizes_ok(fs) && text@ == #[trigger] enc_folders(fs) ==> fs.len() == n
                    && crate::store::fviews(out@) =~= fs.subrange(0, k as int) && pos == start
                    + enc_folder_items(fs.subrange(0, k as int)).len() && v@.subrange(
                    pos as int,
                    v@.len() as int,
                ) == enc_folder_items(fs.subrange(k as int, fs.len() as int))
                    + Seq::<char>::empty(),
        decreases n - k,
    {
        let ghost pre_out = out@;
        let ghost pre_pos = pos as int;
        let item_opt = get_folder(&v, pos);
        proof {
            assert forall|fs: Seq<FolderV>|
                folders_sizes_ok(fs) && text@ == #[trigger] enc_folders(fs) implies (
            item_opt matches Some(p) && p.0@ == fs[k as int] && p.1 == pre_pos + enc_folder(
                fs[k as int],
            ).len()) by {
                lemma_folder_items_head(fs, k as int);
                assert(folder_sizes_ok(fs[k as int]));
                assert(v@.subrange(pre_pos, v@.len() as int) =~= enc_folder(fs[k as int]) + (
                enc_folder_items(fs.subrange(k as int + 1, fs.len() as int))
                    + Seq::<char>::empty()));
            }
        }
        let (record, next) = match item_opt {
            Some(p) => p,
            None => {
                return None;
            },
        };
        out.push(record);
        pos = next;
        proof {
            assert forall|fs: Seq<FolderV>|
                folders_sizes_ok(fs) && text@ == #[trigger] enc_folders(fs) implies crate::store::fviews(
                out@,
            ) =~= fs.subrange(0, k as int + 1) && pos == start + enc_folder_items(
                fs.subrange(0, k as int + 1),
            ).len() && v@.subrange(pos as int, v@.len() as int) == enc_folder_items(
                fs.subrange(k as int + 1, fs.len() as int),
            ) + Seq::<char>::empty() by {
                lemma_folder_items_head(fs, k as int);
                assert(v@.subrange(pre_pos, v@.len() as int) =~= enc_folder(fs[k as int]) + (
                enc_folder_items(fs.subrange(k as int + 1, fs.len() as int))
                    + Seq::<char>::empty()));
                assert(out@[out@.len() - 1]@ == fs[k as int]);
                assert forall|a: int| 0 <= a < k + 1 implies crate::store::fviews(out@)[a]
                    == fs.subrange(0, k as int + 1)[a] by {
                    assert(crate::store::fviews(out@)[a] == out@[a]@);
                    if a < k as int {
                        assert(out@[a] == pre_out[a]);
                        assert(crate::store::fviews(pre_out)[a] == pre_out[a]@);
                    }
                }
                assert(fs.subrange(0, k as int + 1).drop_last() =~= fs.subrange(0, k as int));
                assert(fs.subrange(0, k as int + 1).last() == fs[k as int]);
                lemma_suffix_chop(
                    v@,
                    pre_pos,
                    enc_folder(fs[k as int]),
                    enc_folder_items(fs.subrange(k as int + 1, fs.len() as int))
                        + Seq::<char>::empty(),
                );
            }
        }
        k = k + 1;
    }
    proof {
        assert forall|fs: Seq<FolderV>|
            folders_sizes_ok(fs) && text@ == #[trigger] enc_folders(fs) implies crate::store::fviews(
            out@,
        ) == fs by {
            assert(fs.subrange(0, fs.len() as int) =~= fs);
            assert(crate::store::fviews(out@) =~= fs);
        }
    }
    // The decoded collection must re-encode to the input exactly: any
    // text that is not a well-formed encoding is refused.
    let reencoded = encode_folders(&out);
    if reencoded == text.to_owned() {
        Some(out)
    } else {
        None
    }
}

/// Decoding what [`encode_folders`] wrote gives back the folder
/// collection: the durable round trip at the heart of the persistence
/// story.
pub proof fn lemma_folders_round_trip(fs: Seq<FolderV>, text: Seq<char>, r: Option<Vec<FolderModel>>)
    requires
        folders_sizes_ok(fs),
        text == enc_folders(fs),
        forall|fs2: Seq<FolderV>|
            folders_sizes_ok(fs2) && text == #[trigger] enc_folders(fs2) ==> (r matches Some(out)
                && crate::store::fviews(out@) == fs2),
    ensures
        r matches Some(out) && crate::store::fviews(out@) == fs,
{
}

/// Whether a text is the encoding of some folder collection.
pub open spec fn is_encoded(c: Seq<char>) -> bool {
    exists|fs: Seq<FolderV>| c == #[trigger] enc_folders(fs)
}

/// Whether every folder of a collection fits the format's length
/// prefixes; any collection held in memory does.
pub open spec fn folders_sizes_ok(fs: Seq<FolderV>) -> bool {
    fs.len() <= u64::MAX && (forall|i: int| 0 <= i < fs.len() ==> folder_sizes_ok(#[trigger] fs[i]))
}

/// Splitting the record run of a collection at `k`: the tail's run
/// starts with the `k`-th record's encoding.
proof fn lemma_folder_items_head(fs: Seq<FolderV>, k: int)
    requires
        0 <= k < fs.len(),
    ensures
        enc_folder_items(fs.subrange(k, fs.len() as int)) == enc_folder(fs[k]) + enc_folder_items(
            fs.subrange(k + 1, fs.len() as int),
        ),
        enc_folder_items(fs.subrange(0, k + 1)) == enc_folder_items(fs.subrange(0, k)) + enc_folder(
            fs[k],
        ),
{
    lemma_folder_items_split(fs.subrange(k, fs.len() as int));
    assert(fs.subrange(k, fs.len() as int).subrange(
        1,
        fs.subrange(k, fs.len() as int).len() as int,
    ) =~= fs.subrange(k + 1, fs.len() as int));
    assert(fs.subrange(k, fs.len() as int)[0] == fs[k]);
    assert(fs.subrange(0, k + 1).drop_last() =~= fs.subrange(0, k));
    assert(fs.subrange(0, k + 1).last() == fs[k]);
}

/// A nonempty collection's record run is its head's encoding, then the
/// rest.
proof fn lemma_folder_items_split(fs: Seq<FolderV>)
    requires
        fs.len() >= 1,
    ensures
        enc_folder_items(fs) == enc_folder(fs[0]) + enc_folder_items(
            fs.subrange(1, fs.len() as int),
        ),
    decreases fs.len(),
{
    if fs.len() == 1 {
        assert(fs.drop_last() =~= Seq::<FolderV>::empty());
        assert(enc_folder_items(fs.drop_last()) =~= Seq::<char>::empty());
        assert(fs.subrange(1, 1) =~= Seq::<FolderV>::empty());
        assert(enc_folder_items(fs) =~= enc_folder(fs[0]) + enc_folder_items(fs.subrange(1, 1)));
    } else {
        let t = fs.drop_last();
        lemma_folder_items_split(t);
        assert(t[0] == fs[0]);
        assert(t.subrange(1, t.len() as int) =~= fs.subrange(1, fs.len() as int).drop_last());
        assert(fs.subrange(1, fs.len() as int).last() == fs.last());
        assert(enc_folder_items(fs.subrange(1, fs.len() as int)) == enc_folder_items(
            fs.subrange(1, fs.len() as int).drop_last(),
        ) + enc_folder(fs.last()));
        assert(enc_folder_items(fs) =~= enc_folder(fs[0]) + enc_folder_items(
            fs.subrange(1, fs.len() as int),
        ));
    }
}

/// Whether every text of a list fits the format's length prefix.
pub open spec fn list_sizes_ok(l: Seq<Seq<char>>) -> bool {
    l.len() <= u64::MAX && (forall|i: int| 0 <= i < l.len() ==> (#[trigger] l[i]).len() <= u64::MAX)
}

/// Splitting the item run of a list at `k`: the tail's run starts with
/// the `k`-th item's encoding.
proof fn lemma_items_head(l: Seq<Seq<char>>, k: int)
    requires
        0 <= k < l.len(),
    ensures
        enc_str_list_items(l.subrange(k, l.len() as int)) == enc_str(l[k]) + enc_str_list_items(
            l.subrange(k + 1, l.len() as int),
        ),
        enc_str_list_items(l.subrange(0, k + 1)) == enc_str_list_items(l.subrange(0, k)) + enc_str(
            l[k],
        ),
{
    lemma_items_split(l.subrange(k, l.len() as int));
    assert(l.subrange(k, l.len() as int).subrange(1, l.subrange(k, l.len() as int).len() as int)
        =~= l.subrange(k + 1, l.len() as int));
    assert(l.subrange(k, l.len() as int)[0] == l[k]);
    assert(l.subrange(0, k + 1).drop_last() =~= l.subrange(0, k));
    assert(l.subrange(0, k + 1).last() == l[k]);
}

/// A nonempty list's item run is its head's encoding, then the rest.
proof fn lemma_items_split(l: Seq<Seq<char>>)
    requires
        l.len() >= 1,
    ensures
        enc_str_list_items(l) == enc_str(l[0]) + enc_str_list_items(l.subrange(1, l.len() as int)),
    decreases l.len(),
{
    if l.len() == 1 {
        assert(l.drop_last() =~= Seq::<Seq<char>>::empty());
        assert(enc_str_list_items(l.drop_last()) =~= Seq::<char>::empty());
        assert(l.subrange(1, 1) =~= Seq::<Seq<char>>::empty());
        assert(enc_str_list_items(l) =~= enc_str(l[0]) + enc_str_list_items(l.subrange(1, 1)));
    } else {
        let t = l.drop_last();
        lemma_items_split(t);
        assert(t[0] == l[0]);
        assert(t.subrange(1, t.len() as int) =~= l.subrange(1, l.len() as int).drop_last());
        assert(l.subrange(1, l.len() as int).last() == l.last());
        assert(enc_str_list_items(l.subrange(1, l.len() as int)) == enc_str_list_items(
            l.subrange(1, l.len() as int).drop_last(),
        ) + enc_str(l.last()));
        assert(enc_str_list_items(l) =~= enc_str(l[0]) + enc_str_list_items(
            l.subrange(1, l.len() as int),
        ));
    }
}


// ---------------------------------------------------------------------
// The world record and collection, in the same format: a fixed run of
// fields (optional values ride as a presence flag and a value, absent
// counting as zero), so every record is a straight chain of the
// primitives above.
// ---------------------------------------------------------------------

/// An optional narrow counter's ridden value: the value, or zero where
/// absent.
pub open spec fn opt_i32_val(x: Option<i32>) -> int {
    match x {
        Some(v) => v as int,
        None => 0,
    }
}

/// An optional timestamp's ridden value: the value, or zero where absent.
pub open spec fn opt_i64_val(x: Option<i64>) -> int {
    match x {
        Some(v) => v as int,
        None => 0,
    }
}

/// Whether a world's texts fit the format's length prefixes; anything
/// held in memory does.
pub open spec fn world_sizes_ok(w: WorldV) -> bool {
    w.api_data.image_url.len() <= u64::MAX && w.api_data.world_name.len() <= u64::MAX
        && w.api_data.world_id.len() <= u64::MAX && w.api_data.author_name.len() <= u64::MAX
        && w.api_data.author_id.len() <= u64::MAX && w.api_data.description.len() <= u64::MAX
        && w.user_data.memo.len() <= u64::MAX && list_sizes_ok(w.api_data.tags) && list_sizes_ok(
        w.api_data.platform,
    ) && list_sizes_ok(w.user_data.folders)
}


/// The record's encoding from its `image_url` field on, then `rest`.
pub open spec fn world_from_image_url(w: WorldV, rest: Seq<char>) -> Seq<char> {
    enc_str(w.api_data.image_url) + world_from_world_name(w, rest)
}

/// The record's encoding from its `world_name` field on, then `rest`.
pub open spec fn world_from_world_name(w: WorldV, rest: Seq<char>) -> Seq<char> {
    enc_str(w.api_data.world_name) + world_from_world_id(w, rest)
}

/// The record's encoding from its `world_id` field on, then `rest`.
pub open spec fn world_from_world_id(w: WorldV, rest: Seq<char>) -> Seq<char> {
    enc_str(w.api_data.world_id) + world_from_author_name(w, rest)
}

/// The record's encoding from its `author_name` field on, then `rest`.
pub open spec fn world_from_author_name(w: WorldV, rest: Seq<char>) -> Seq<char> {
    enc_str(w.api_data.author_name) + world_from_author_id(w, rest)
}

/// The record's encoding from its `author_id` field on, then `rest`.
pub open spec fn world_from_author_id(w: WorldV, rest: Seq<char>) -> Seq<char> {
    enc_str(w.api_data.author_id) + world_from_capacity(w, rest)
}

/// The record's encoding from its `capacity` field on, then `rest`.
pub open spec fn world_from_capacity(w: WorldV, rest: Seq<char>) -> Seq<char> {
    enc_i64(w.api_data.capacity as int) + world_from_rc_flag(w, rest)
}

/// The record's encoding from its `rc_flag` field on, then `rest`.
pub open spec fn world_from_rc_flag(w: WorldV, rest: Seq<char>) -> Seq<char> {
    enc_bool(w.api_data.recommended_capacity is Some) + world_from_rc_val(w, rest)
}

/// The record's encoding from its `rc_val` field on, then `rest`.
pub open spec fn world_from_rc_val(w: WorldV, rest: Seq<char>) -> Seq<char> {
    enc_i64(opt_i32_val(w.api_data.recommended_capacity)) + world_from_tags(w, rest)
}

/// The record's encoding from its `tags` field on, then `rest`.
pub open spec fn world_from_tags(w: WorldV, rest: Seq<char>) -> Seq<char> {
    enc_str_list(w.api_data.tags) + world_from_pd_flag(w, rest)
}

/// The record's encoding from its `pd_flag` field on, then `rest`.
pub open spec fn world_from_pd_flag(w: WorldV, rest: Seq<char>) -> Seq<char> {
    enc_bool(w.api_data.publication_date is Some) + world_from_pd_val(w, rest)
}

/// The record's encoding from its `pd_val` field on, then `rest`.
pub open spec fn world_from_pd_val(w: WorldV, rest: Seq<char>) -> Seq<char> {
    enc_i64(opt_i64_val(w.api_data.publication_date)) + world_from_last_update(w, rest)
}

/// The record's encoding from its `last_update` field on, then `rest`.
pub open spec fn world_from_last_update(w: WorldV, rest: Seq<char>) -> Seq<char> {
    enc_i64(w.api_data.last_update as int) + world_from_description(w, rest)
}

/// The record's encoding from its `description` field on, then `rest`.
pub open spec fn world_from_description(w: WorldV, rest: Seq<char>) -> Seq<char> {
    enc_str(w.api_data.description) + world_from_visits_flag(w, rest)
}

/// The record's encoding from its `visits_flag` field on, then `rest`.
pub open spec fn world_from_visits_flag(w: WorldV, rest: Seq<char>) -> Seq<char> {
    enc_bool(w.api_data.visits is Some) + world_from_visits_val(w, rest)
}

/// The record's encoding from its `visits_val` field on, then `rest`.
pub open spec fn world_from_visits_val(w: WorldV, rest: Seq<char>) -> Seq<char> {
    enc_i64(opt_i32_val(w.api_data.visits)) + world_from_favorites(w, rest)
}

/// The record's encoding from its `favorites` field on, then `rest`.
pub open spec fn world_from_favorites(w: WorldV, rest: Seq<char>) -> Seq<char> {
    enc_i64(w.api_data.favorites as int) + world_from_platform(w, rest)
}

/// The record's encoding from its `platform` field on, then `rest`.
pub open spec fn world_from_platform(w: WorldV, rest: Seq<char>) -> Seq<char> {
    enc_str_list(w.api_data.platform) + world_from_date_added(w, rest)
}

/// The record's encoding from its `date_added` field on, then `rest`.
pub open spec fn world_from_date_added(w: WorldV, rest: Seq<char>) -> Seq<char> {
    enc_i64(w.user_data.date_added as int) + world_from_last_checked(w, rest)
}

/// The record's encoding from its `last_checked` field on, then `rest`.
pub open spec fn world_from_last_checked(w: WorldV, rest: Seq<char>) -> Seq<char> {
    enc_i64(w.user_data.last_checked as int) + world_from_memo(w, rest)
}

/// The record's encoding from its `memo` field on, then `rest`.
pub open spec fn world_from_memo(w: WorldV, rest: Seq<char>) -> Seq<char> {
    enc_str(w.user_data.memo) + world_from_folders(w, rest)
}

/// The record's encoding from its `folders` field on, then `rest`.
pub open spec fn world_from_folders(w: WorldV, rest: Seq<char>) -> Seq<char> {
    enc_str_list(w.user_data.folders) + world_from_hidden(w, rest)
}

/// The record's encoding from its `hidden` field on, then `rest`.
pub open spec fn world_from_hidden(w: WorldV, rest: Seq<char>) -> Seq<char> {
    enc_bool(w.user_data.hidden) + world_from_is_photographed(w, rest)
}

/// The record's encoding from its `is_photographed` field on, then `rest`.
pub open spec fn world_from_is_photographed(w: WorldV, rest: Seq<char>) -> Seq<char> {
    enc_bool(w.user_data.is_photographed) + world_from_is_shared(w, rest)
}

/// The record's encoding from its `is_shared` field on, then `rest`.
pub open spec fn world_from_is_shared(w: WorldV, rest: Seq<char>) -> Seq<char> {
    enc_bool(w.user_data.is_shared) + world_from_is_favorite(w, rest)
}

/// The record's encoding from its `is_favorite` field on, then `rest`.
pub open spec fn world_from_is_favorite(w: WorldV, rest: Seq<char>) -> Seq<char> {
    enc_bool(w.user_data.is_favorite) + rest
}

/// A world record: its fields in the fixed order.
pub open spec fn enc_world(w: WorldV) -> Seq<char> {
    world_from_image_url(w, Seq::<char>::empty())
}

/// Threading `rest` through the field chain, from `is_favorite` on.
proof fn lemma_append_is_favorite(w: WorldV, rest: Seq<char>)
    ensures
        world_from_is_favorite(w, Seq::<char>::empty()) + rest == world_from_is_favorite(w, rest),
{
    assert(world_from_is_favorite(w, Seq::<char>::empty()) + rest =~= world_from_is_favorite(w, rest));
}

/// Threading `rest` through the field chain, from `is_shared` on.
proof fn lemma_append_is_shared(w: WorldV, rest: Seq<char>)
    ensures
        world_from_is_shared(w, Seq::<char>::empty()) + rest == world_from_is_shared(w, rest),
{
    lemma_append_is_favorite(w, rest);
    assert(world_from_is_shared(w, Seq::<char>::empty()) + rest =~= world_from_is_shared(w, rest));
}

/// Threading `rest` through the field chain, from `is_photographed` on.
proof fn lemma_append_is_photographed(w: WorldV, rest: Seq<char>)
    ensures
        world_from_is_photographed(w, Seq::<char>::empty()) + rest == world_from_is_photographed(w, rest),
{
    lemma_append_is_shared(w, rest);
    assert(world_from_is_photographed(w, Seq::<char>::empty()) + rest =~= world_from_is_photographed(w, rest));
}

/// Threading `rest` through the field chain, from `hidden` on.
proof fn lemma_append_hidden(w: WorldV, rest: Seq<char>)
    ensures
        world_from_hidden(w, Seq::<char>::empty()) + rest == world_from_hidden(w, rest),
{
    lemma_append_is_photographed(w, rest);
    assert(world_from_hidden(w, Seq::<char>::empty()) + rest =~= world_from_hidden(w, rest));
}

/// Threading `rest` through the field chain, from `folders` on.
proof fn lemma_append_folders(w: WorldV, rest: Seq<char>)
    ensures
        world_from_folders(w, Seq::<char>::empty()) + rest == world_from_folders(w, rest),
{
    lemma_append_hidden(w, rest);
    assert(world_from_folders(w, Seq::<char>::empty()) + rest =~= world_from_folders(w, rest));
}

/// Threading `rest` through the field chain, from `memo` on.
proof fn lemma_append_memo(w: WorldV, rest: Seq<char>)
    ensures
        world_from_memo(w, Seq::<char>::empty()) + rest == world_from_memo(w, rest),
{
    lemma_append_folders(w, rest);
    assert(world_from_memo(w, Seq::<char>::empty()) + rest =~= world_from_memo(w, rest));
}

/// Threading `rest` through the field chain, from `last_checked` on.
proof fn lemma_append_last_checked(w: WorldV, rest: Seq<char>)
    ensures
        world_from_last_checked(w, Seq::<char>::empty()) + rest == world_from_last_checked(w, rest),
{
    lemma_append_memo(w, rest);
    assert(world_from_last_checked(w, Seq::<char>::empty()) + rest =~= world_from_last_checked(w, rest));
}

/// Threading `rest` through the field chain, from `date_added` on.
proof fn lemma_append_date_added(w: WorldV, rest: Seq<char>)
    ensures
        world_from_date_added(w, Seq::<char>::empty()) + rest == world_from_date_added(w, rest),
{
    lemma_append_last_checked(w, rest);
    assert(world_from_date_added(w, Seq::<char>::empty()) + rest =~= world_from_date_added(w, rest));
}

/// Threading `rest` through the field chain, from `platform` on.
proof fn lemma_append_platform(w: WorldV, rest: Seq<char>)
    ensures
        world_from_platform(w, Seq::<char>::empty()) + rest == world_from_platform(w, rest),
{
    lemma_append_date_added(w, rest);
    assert(world_from_platform(w, Seq::<char>::empty()) + rest =~= world_from_platform(w, rest));
}

/// Threading `rest` through the field chain, from `favorites` on.
proof fn lemma_append_favorites(w: WorldV, rest: Seq<char>)
    ensures
        world_from_favorites(w, Seq::<char>::empty()) + rest == world_from_favorites(w, rest),
{
    lemma_append_platform(w, rest);
    assert(world_from_favorites(w, Seq::<char>::empty()) + rest =~= world_from_favorites(w, rest));
}

/// Threading `rest` through the field chain, from `visits_val` on.
proof fn lemma_append_visits_val(w: WorldV, rest: Seq<char>)
    ensures
        world_from_visits_val(w, Seq::<char>::empty()) + rest == world_from_visits_val(w, rest),
{
    lemma_append_favorites(w, rest);
    assert(world_from_visits_val(w, Seq::<char>::empty()) + rest =~= world_from_visits_val(w, rest));
}

/// Threading `rest` through the field chain, from `visits_flag` on.
proof fn lemma_append_visits_flag(w: WorldV, rest: Seq<char>)
    ensures
        world_from_visits_flag(w, Seq::<char>::empty()) + rest == world_from_visits_flag(w, rest),
{
    lemma_append_visits_val(w, rest);
    assert(world_from_visits_flag(w, Seq::<char>::empty()) + rest =~= world_from_visits_flag(w, rest));
}

/// Threading `rest` through the field chain, from `description` on.
proof fn lemma_append_description(w: WorldV, rest: Seq<char>)
    ensures
        world_from_description(w, Seq::<char>::empty()) + rest == world_from_description(w, rest),
{
    lemma_append_visits_flag(w, rest);
    assert(world_from_description(w, Seq::<char>::empty()) + rest =~= world_from_description(w, rest));
}

/// Threading `rest` through the field chain, from `last_update` on.
proof fn lemma_append_last_update(w: WorldV, rest: Seq<char>)
    ensures
        world_from_last_update(w, Seq::<char>::empty()) + rest == world_from_last_update(w, rest),
{
    lemma_append_description(w, rest);
    assert(world_from_last_update(w, Seq::<char>::empty()) + rest =~= world_from_last_update(w, rest));
}

/// Threading `rest` through the field chain, from `pd_val` on.
proof fn lemma_append_pd_val(w: WorldV, rest: Seq<char>)
    ensures
        world_from_pd_val(w, Seq::<char>::empty()) + rest == world_from_pd_val(w, rest),
{
    lemma_append_last_update(w, rest);
    assert(world_from_pd_val(w, Seq::<char>::empty()) + rest =~= world_from_pd_val(w, rest));
}

/// Threading `rest` through the field chain, from `pd_flag` on.
proof fn lemma_append_pd_flag(w: WorldV, rest: Seq<char>)
    ensures
        world_from_pd_flag(w, Seq::<char>::empty()) + rest == world_from_pd_flag(w, rest),
{
    lemma_append_pd_val(w, rest);
    assert(world_from_pd_flag(w, Seq::<char>::empty()) + rest =~= world_from_pd_flag(w, rest));
}

/// Threading `rest` through the field chain, from `tags` on.
proof fn lemma_append_tags(w: WorldV, rest: Seq<char>)
    ensures
        world_from_tags(w, Seq::<char>::empty()) + rest == world_from_tags(w, rest),
{
    lemma_append_pd_flag(w, rest);
    assert(world_from_tags(w, Seq::<char>::empty()) + rest =~= world_from_tags(w, rest));
}

/// Threading `rest` through the field chain, from `rc_val` on.
proof fn lemma_append_rc_val(w: WorldV, rest: Seq<char>)
    ensures
        world_from_rc_val(w, Seq::<char>::empty()) + rest == world_from_rc_val(w, rest),
{
    lemma_append_tags(w, rest);
    assert(world_from_rc_val(w, Seq::<char>::empty()) + rest =~= world_from_rc_val(w, rest));
}

/// Threading `rest` through the field chain, from `rc_flag` on.
proof fn lemma_append_rc_flag(w: WorldV, rest: Seq<char>)
    ensures
        world_from_rc_flag(w, Seq::<char>::empty()) + rest == world_from_rc_flag(w, rest),
{
    lemma_append_rc_val(w, rest);
    assert(world_from_rc_flag(w, Seq::<char>::empty()) + rest =~= world_from_rc_flag(w, rest));
}

/// Threading `rest` through the field chain, from `capacity` on.
proof fn lemma_append_capacity(w: WorldV, rest: Seq<char>)
    ensures
        world_from_capacity(w, Seq::<char>::empty()) + rest == world_from_capacity(w, rest),
{
    lemma_append_rc_flag(w, rest);
    assert(world_from_capacity(w, Seq::<char>::empty()) + rest =~= world_from_capacity(w, rest));
}

/// Threading `rest` through the field chain, from `author_id` on.
proof fn lemma_append_author_id(w: WorldV, rest: Seq<char>)
    ensures
        world_from_author_id(w, Seq::<char>::empty()) + rest == world_from_author_id(w, rest),
{
    lemma_append_capacity(w, rest);
    assert(world_from_author_id(w, Seq::<char>::empty()) + rest =~= world_from_author_id(w, rest));
}

/// Threading `rest` through the field chain, from `author_name` on.
proof fn lemma_append_author_name(w: WorldV, rest: Seq<char>)
    ensures
        world_from_author_name(w, Seq::<char>::empty()) + rest == world_from_author_name(w, rest),
{
    lemma_append_author_id(w, rest);
    assert(world_from_author_name(w, Seq::<char>::empty()) + rest =~= world_from_author_name(w, rest));
}

/// Threading `rest` through the field chain, from `world_id` on.
proof fn lemma_append_world_id(w: WorldV, rest: Seq<char>)
    ensures
        world_from_world_id(w, Seq::<char>::empty()) + rest == world_from_world_id(w, rest),
{
    lemma_append_author_name(w, rest);
    assert(world_from_world_id(w, Seq::<char>::empty()) + rest =~= world_from_world_id(w, rest));
}

/// Threading `rest` through the field chain, from `world_name` on.
proof fn lemma_append_world_name(w: WorldV, rest: Seq<char>)
    ensures
        world_from_world_name(w, Seq::<char>::empty()) + rest == world_from_world_name(w, rest),
{
    lemma_append_world_id(w, rest);
    assert(world_from_world_name(w, Seq::<char>::empty()) + rest =~= world_from_world_name(w, rest));
}

/// Threading `rest` through the field chain, from `image_url` on.
proof fn lemma_append_image_url(w: WorldV, rest: Seq<char>)
    ensures
        world_from_image_url(w, Seq::<char>::empty()) + rest == world_from_image_url(w, rest),
{
    lemma_append_world_name(w, rest);
    assert(world_from_image_url(w, Seq::<char>::empty()) + rest =~= world_from_image_url(w, rest));
}

/// The record's encoding followed by `rest` is the field chain threaded
/// with `rest`.
proof fn lemma_enc_world_append(w: WorldV, rest: Seq<char>)
    ensures
        enc_world(w) + rest == world_from_image_url(w, rest),
{
    lemma_append_image_url(w, rest);
}

/// Appends a world record's encoding.
/// One association step of the encoder's bookkeeping, at `image_url`.
proof fn lemma_put_step_image_url(prefix: Seq<char>, w: WorldV)
    ensures
        prefix + world_from_image_url(w, Seq::<char>::empty()) == (prefix + enc_str(w.api_data.image_url)) + world_from_world_name(w, Seq::<char>::empty()),
{
    assert(prefix + world_from_image_url(w, Seq::<char>::empty()) =~= (prefix + enc_str(w.api_data.image_url)) + world_from_world_name(w, Seq::<char>::empty()));
}

/// One association step of the encoder's bookkeeping, at `world_name`.
proof fn lemma_put_step_world_name(prefix: Seq<char>, w: WorldV)
    ensures
        prefix + world_from_world_name(w, Seq::<char>::empty()) == (prefix + enc_str(w.api_data.world_name)) + world_from_world_id(w, Seq::<char>::empty()),
{
    assert(prefix + world_from_world_name(w, Seq::<char>::empty()) =~= (prefix + enc_str(w.api_data.world_name)) + world_from_world_id(w, Seq::<char>::empty()));
}

/// One association step of the encoder's bookkeeping, at `world_id`.
proof fn lemma_put_step_world_id(prefix: Seq<char>, w: WorldV)
    ensures
        prefix + world_from_world_id(w, Seq::<char>::empty()) == (prefix + enc_str(w.api_data.world_id)) + world_from_author_name(w, Seq::<char>::empty()),
{
    assert(prefix + world_from_world_id(w, Seq::<char>::empty()) =~= (prefix + enc_str(w.api_data.world_id)) + world_from_author_name(w, Seq::<char>::empty()));
}

/// One association step of the encoder's bookkeeping, at `author_name`.
proof fn lemma_put_step_author_name(prefix: Seq<char>, w: WorldV)
    ensures
        prefix + world_from_author_name(w, Seq::<char>::empty()) == (prefix + enc_str(w.api_data.author_name)) + world_from_author_id(w, Seq::<char>::empty()),
{
    assert(prefix + world_from_author_name(w, Seq::<char>::empty()) =~= (prefix + enc_str(w.api_data.author_name)) + world_from_author_id(w, Seq::<char>::empty()));
}

/// One association step of the encoder's bookkeeping, at `author_id`.
proof fn lemma_put_step_author_id(prefix: Seq<char>, w: WorldV)
    ensures
        prefix + world_from_author_id(w, Seq::<char>::empty()) == (prefix + enc_str(w.api_data.author_id)) + world_from_capacity(w, Seq::<char>::empty()),
{
    assert(prefix + world_from_author_id(w, Seq::<char>::empty()) =~= (prefix + enc_str(w.api_data.author_id)) + world_from_capacity(w, Seq::<char>::empty()));
}

/// One association step of the encoder's bookkeeping, at `capacity`.
proof fn lemma_put_step_capacity(prefix: Seq<char>, w: WorldV)
    ensures
        prefix + world_from_capacity(w, Seq::<char>::empty()) == (prefix + enc_i64(w.api_data.capacity as int)) + world_from_rc_flag(w, Seq::<char>::empty()),
{
    assert(prefix + world_from_capacity(w, Seq::<char>::empty()) =~= (prefix + enc_i64(w.api_data.capacity as int)) + world_from_rc_flag(w, Seq::<char>::empty()));
}

/// One association step of the encoder's bookkeeping, at `rc_flag`.
proof fn lemma_put_step_rc_flag(prefix: Seq<char>, w: WorldV)
    ensures
        prefix + world_from_rc_flag(w, Seq::<char>::empty()) == (prefix + enc_bool(w.api_data.recommended_capacity is Some)) + world_from_rc_val(w, Seq::<char>::empty()),
{
    assert(prefix + world_from_rc_flag(w, Seq::<char>::empty()) =~= (prefix + enc_bool(w.api_data.recommended_capacity is Some)) + world_from_rc_val(w, Seq::<char>::empty()));
}

/// One association step of the encoder's bookkeeping, at `rc_val`.
proof fn lemma_put_step_rc_val(prefix: Seq<char>, w: WorldV)
    ensures
        prefix + world_from_rc_val(w, Seq::<char>::empty()) == (prefix + enc_i64(opt_i32_val(w.api_data.recommended_capacity))) + world_from_tags(w, Seq::<char>::empty()),
{
    assert(prefix + world_from_rc_val(w, Seq::<char>::empty()) =~= (prefix + enc_i64(opt_i32_val(w.api_data.recommended_capacity))) + world_from_tags(w, Seq::<char>::empty()));
}

/// One association step of the encoder's bookkeeping, at `tags`.
proof fn lemma_put_step_tags(prefix: Seq<char>, w: WorldV)
    ensures
        prefix + world_from_tags(w, Seq::<char>::empty()) == (prefix + enc_str_list(w.api_data.tags)) + world_from_pd_flag(w, Seq::<char>::empty()),
{
    assert(prefix + world_from_tags(w, Seq::<char>::empty()) =~= (prefix + enc_str_list(w.api_data.tags)) + world_from_pd_flag(w, Seq::<char>::empty()));
}

/// One association step of the encoder's bookkeeping, at `pd_flag`.
proof fn lemma_put_step_pd_flag(prefix: Seq<char>, w: WorldV)
    ensures
        prefix + world_from_pd_flag(w, Seq::<char>::empty()) == (prefix + enc_bool(w.api_data.publication_date is Some)) + world_from_pd_val(w, Seq::<char>::empty()),
{
    assert(prefix + world_from_pd_flag(w, Seq::<char>::empty()) =~= (prefix + enc_bool(w.api_data.publication_date is Some)) + world_from_pd_val(w, Seq::<char>::empty()));
}

/// One association step of the encoder's bookkeeping, at `pd_val`.
proof fn lemma_put_step_pd_val(prefix: Seq<char>, w: WorldV)
    ensures
        prefix + world_from_pd_val(w, Seq::<char>::empty()) == (prefix + enc_i64(opt_i64_val(w.api_data.publication_date))) + world_from_last_update(w, Seq::<char>::empty()),
{
    assert(prefix + world_from_pd_val(w, Seq::<char>::empty()) =~= (prefix + enc_i64(opt_i64_val(w.api_data.publication_date))) + world_from_last_update(w, Seq::<char>::empty()));
}

/// One association step of the encoder's bookkeeping, at `last_update`.
proof fn lemma_put_step_last_update(prefix: Seq<char>, w: WorldV)
    ensures
        prefix + world_from_last_update(w, Seq::<char>::empty()) == (prefix + enc_i64(w.api_data.last_update as int)) + world_from_description(w, Seq::<char>::empty()),
{
    assert(prefix + world_from_last_update(w, Seq::<char>::empty()) =~= (prefix + enc_i64(w.api_data.last_update as int)) + world_from_description(w, Seq::<char>::empty()));
}

/// One association step of the encoder's bookkeeping, at `description`.
proof fn lemma_put_step_description(prefix: Seq<char>, w: WorldV)
    ensures
        prefix + world_from_description(w, Seq::<char>::empty()) == (prefix + enc_str(w.api_data.description)) + world_from_visits_flag(w, Seq::<char>::empty()),
{
    assert(prefix + world_from_description(w, Seq::<char>::empty()) =~= (prefix + enc_str(w.api_data.description)) + world_from_visits_flag(w, Seq::<char>::empty()));
}

/// One association step of the encoder's bookkeeping, at `visits_flag`.
proof fn lemma_put_step_visits_flag(prefix: Seq<char>, w: WorldV)
    ensures
        prefix + world_from_visits_flag(w, Seq::<char>::empty()) == (prefix + enc_bool(w.api_data.visits is Some)) + world_from_visits_val(w, Seq::<char>::empty()),
{
    assert(prefix + world_from_visits_flag(w, Seq::<char>::empty()) =~= (prefix + enc_bool(w.api_data.visits is Some)) + world_from_visits_val(w, Seq::<char>::empty()));
}

/// One association step of the encoder's bookkeeping, at `visits_val`.
proof fn lemma_put_step_visits_val(prefix: Seq<char>, w: WorldV)
    ensures
        prefix + world_from_visits_val(w, Seq::<char>::empty()) == (prefix + enc_i64(opt_i32_val(w.api_data.visits))) + world_from_favorites(w, Seq::<char>::empty()),
{
    assert(prefix + world_from_visits_val(w, Seq::<char>::empty()) =~= (prefix + enc_i64(opt_i32_val(w.api_data.visits))) + world_from_favorites(w, Seq::<char>::empty()));
}

/// One association step of the encoder's bookkeeping, at `favorites`.
proof fn lemma_put_step_favorites(prefix: Seq<char>, w: WorldV)
    ensures
        prefix + world_from_favorites(w, Seq::<char>::empty()) == (prefix + enc_i64(w.api_data.favorites as int)) + world_from_platform(w, Seq::<char>::empty()),
{
    assert(prefix + world_from_favorites(w, Seq::<char>::empty()) =~= (prefix + enc_i64(w.api_data.favorites as int)) + world_from_platform(w, Seq::<char>::empty()));
}

/// One association step of the encoder's bookkeeping, at `platform`.
proof fn lemma_put_step_platform(prefix: Seq<char>, w: WorldV)
    ensures
        prefix + world_from_platform(w, Seq::<char>::empty()) == (prefix + enc_str_list(w.api_data.platform)) + world_from_date_added(w, Seq::<char>::empty()),
{
    assert(prefix + world_from_platform(w, Seq::<char>::empty()) =~= (prefix + enc_str_list(w.api_data.platform)) + world_from_date_added(w, Seq::<char>::empty()));
}

/// One association step of the encoder's bookkeeping, at `date_added`.
proof fn lemma_put_step_date_added(prefix: Seq<char>, w: WorldV)
    ensures
        prefix + world_from_date_added(w, Seq::<char>::empty()) == (prefix + enc_i64(w.user_data.date_added as int)) + world_from_last_checked(w, Seq::<char>::empty()),
{
    assert(prefix + world_from_date_added(w, Seq::<char>::empty()) =~= (prefix + enc_i64(w.user_data.date_added as int)) + world_from_last_checked(w, Seq::<char>::empty()));
}

/// One association step of the encoder's bookkeeping, at `last_checked`.
proof fn lemma_put_step_last_checked(prefix: Seq<char>, w: WorldV)
    ensures
        prefix + world_from_last_checked(w, Seq::<char>::empty()) == (prefix + enc_i64(w.user_data.last_checked as int)) + world_from_memo(w, Seq::<char>::empty()),
{
    assert(prefix + world_from_last_checked(w, Seq::<char>::empty()) =~= (prefix + enc_i64(w.user_data.last_checked as int)) + world_from_memo(w, Seq::<char>::empty()));
}

/// One association step of the encoder's bookkeeping, at `memo`.
proof fn lemma_put_step_memo(prefix: Seq<char>, w: WorldV)
    ensures
        prefix + world_from_memo(w, Seq::<char>::empty()) == (prefix + enc_str(w.user_data.memo)) + world_from_folders(w, Seq::<char>::empty()),
{
    assert(prefix + world_from_memo(w, Seq::<char>::empty()) =~= (prefix + enc_str(w.user_data.memo)) + world_from_folders(w, Seq::<char>::empty()));
}

/// One association step of the encoder's bookkeeping, at `folders`.
proof fn lemma_put_step_folders(prefix: Seq<char>, w: WorldV)
    ensures
        prefix + world_from_folders(w, Seq::<char>::empty()) == (prefix + enc_str_list(w.user_data.folders)) + world_from_hidden(w, Seq::<char>::empty()),
{
    assert(prefix + world_from_folders(w, Seq::<char>::empty()) =~= (prefix + enc_str_list(w.user_data.folders)) + world_from_hidden(w, Seq::<char>::empty()));
}

/// One association step of the encoder's bookkeeping, at `hidden`.
proof fn lemma_put_step_hidden(prefix: Seq<char>, w: WorldV)
    ensures
        prefix + world_from_hidden(w, Seq::<char>::empty()) == (prefix + enc_bool(w.user_data.hidden)) + world_from_is_photographed(w, Seq::<char>::empty()),
{
    assert(prefix + world_from_hidden(w, Seq::<char>::empty()) =~= (prefix + enc_bool(w.user_data.hidden)) + world_from_is_photographed(w, Seq::<char>::empty()));
}

/// One association step of the encoder's bookkeeping, at `is_photographed`.
proof fn lemma_put_step_is_photographed(prefix: Seq<char>, w: WorldV)
    ensures
        prefix + world_from_is_photographed(w, Seq::<char>::empty()) == (prefix + enc_bool(w.user_data.is_photographed)) + world_from_is_shared(w, Seq::<char>::empty()),
{
    assert(prefix + world_from_is_photographed(w, Seq::<char>::empty()) =~= (prefix + enc_bool(w.user_data.is_photographed)) + world_from_is_shared(w, Seq::<char>::empty()));
}

/// One association step of the encoder's bookkeeping, at `is_shared`.
proof fn lemma_put_step_is_shared(prefix: Seq<char>, w: WorldV)
    ensures
        prefix + world_from_is_shared(w, Seq::<char>::empty()) == (prefix + enc_bool(w.user_data.is_shared)) + world_from_is_favorite(w, Seq::<char>::empty()),
{
    assert(prefix + world_from_is_shared(w, Seq::<char>::empty()) =~= (prefix + enc_bool(w.user_data.is_shared)) + world_from_is_favorite(w, Seq::<char>::empty()));
}

/// One association step of the encoder's bookkeeping, at `is_favorite`.
proof fn lemma_put_step_is_favorite(prefix: Seq<char>, w: WorldV)
    ensures
        prefix + world_from_is_favorite(w, Seq::<char>::empty()) == (prefix + enc_bool(w.user_data.is_favorite)) + Seq::<char>::empty(),
{
    assert(prefix + world_from_is_favorite(w, Seq::<char>::empty()) =~= (prefix + enc_bool(w.user_data.is_favorite)) + Seq::<char>::empty());
}

/// Appends a world record's encoding.
#[verifier::rlimit(100)]
#[verifier::spinoff_prover]
pub fn put_world(out: &mut Vec<char>, w: &WorldModel)
    ensures
        final(out)@ == old(out)@ + enc_world(w@),
{
    put_str(out, &w.api_data.image_url);
    put_str(out, &w.api_data.world_name);
    put_str(out, &w.api_data.world_id);
    put_str(out, &w.api_data.author_name);
    put_str(out, &w.api_data.author_id);
    put_i64(out, w.api_data.capacity as i64);
    put_bool(out, w.api_data.recommended_capacity.is_some());
    put_i64(out, match w.api_data.recommended_capacity {
        Some(value) => value as i64,
        None => 0,
    });
    put_str_list(out, &w.api_data.tags);
    put_bool(out, w.api_data.publication_date.is_some());
    put_i64(out, match w.api_data.publication_date {
        Some(value) => value,
        None => 0,
    });
    put_i64(out, w.api_data.last_update as i64);
    put_str(out, &w.api_data.description);
    put_bool(out, w.api_data.visits.is_some());
    put_i64(out, match w.api_data.visits {
        Some(value) => value as i64,
        None => 0,
    });
    put_i64(out, w.api_data.favorites as i64);
    put_str_list(out, &w.api_data.platform);
    put_i64(out, w.user_data.date_added as i64);
    put_i64(out, w.user_data.last_checked as i64);
    put_str(out, &w.user_data.memo);
    put_str_list(out, &w.user_data.folders);
    put_bool(out, w.user_data.hidden);
    put_bool(out, w.user_data.is_photographed);
    put_bool(out, w.user_data.is_shared);
    put_bool(out, w.user_data.is_favorite);
    proof {
        let wv = w@;
        let a0 = old(out)@;
        lemma_put_step_image_url(a0, wv);
        let a1 = a0 + enc_str(wv.api_data.image_url);
        lemma_put_step_world_name(a1, wv);
        let a2 = a1 + enc_str(wv.api_data.world_name);
        lemma_put_step_world_id(a2, wv);
        let a3 = a2 + enc_str(wv.api_data.world_id);
        lemma_put_step_author_name(a3, wv);
        let a4 = a3 + enc_str(wv.api_data.author_name);
        lemma_put_step_author_id(a4, wv);
        let a5 = a4 + enc_str(wv.api_data.author_id);
        lemma_put_step_capacity(a5, wv);
        let a6 = a5 + enc_i64(wv.api_data.capacity as int);
        lemma_put_step_rc_flag(a6, wv);
        let a7 = a6 + enc_bool(wv.api_data.recommended_capacity is Some);
        lemma_put_step_rc_val(a7, wv);
        let a8 = a7 + enc_i64(opt_i32_val(wv.api_data.recommended_capacity));
        lemma_put_step_tags(a8, wv);
        let a9 = a8 + enc_str_list(wv.api_data.tags);
        lemma_put_step_pd_flag(a9, wv);
        let a10 = a9 + enc_bool(wv.api_data.publication_date is Some);
        lemma_put_step_pd_val(a10, wv);
        let a11 = a10 + enc_i64(opt_i64_val(wv.api_data.publication_date));
        lemma_put_step_last_update(a11, wv);
        let a12 = a11 + enc_i64(wv.api_data.last_update as int);
        lemma_put_step_description(a12, wv);
        let a13 = a12 + enc_str(wv.api_data.description);
        lemma_put_step_visits_flag(a13, wv);
        let a14 = a13 + enc_bool(wv.api_data.visits is Some);
        lemma_put_step_visits_val(a14, wv);
        let a15 = a14 + enc_i64(opt_i32_val(wv.api_data.visits));
        lemma_put_step_favorites(a15, wv);
        let a16 = a15 + enc_i64(wv.api_data.favorites as int);
        lemma_put_step_platform(a16, wv);
        let a17 = a16 + enc_str_list(wv.api_data.platform);
        lemma_put_step_date_added(a17, wv);
        let a18 = a17 + enc_i64(wv.user_data.date_added as int);
        lemma_put_step_last_checked(a18, wv);
        let a19 = a18 + enc_i64(wv.user_data.last_checked as int);
        lemma_put_step_memo(a19, wv);
        let a20 = a19 + enc_str(wv.user_data.memo);
        lemma_put_step_folders(a20, wv);
        let a21 = a20 + enc_str_list(wv.user_data.folders);
        lemma_put_step_hidden(a21, wv);
        let a22 = a21 + enc_bool(wv.user_data.hidden);
        lemma_put_step_is_photographed(a22, wv);
        let a23 = a22 + enc_bool(wv.user_data.is_photographed);
        lemma_put_step_is_shared(a23, wv);
        let a24 = a23 + enc_bool(wv.user_data.is_shared);
        lemma_put_step_is_favorite(a24, wv);
        let a25 = a24 + enc_bool(wv.user_data.is_favorite);
        assert(a25 + Seq::<char>::empty() =~= a25);
        assert(out@ == a25);
        assert(out@ == a0 + enc_world(wv));
    }
}

/// Reads the leading provenance fields of a world record at `i`.
#[verifier::rlimit(100)]
#[verifier::spinoff_prover]
fn get_world_head(v: &Vec<char>, i: usize) -> (r: Option<((String, String, String, String, String, i64, bool, i64, Vec<String>), usize)>)
    requires
        i <= v@.len(),
    ensures
        r matches Some(p) ==> i <= p.1 <= v@.len(),
        forall|w: WorldV, rest: Seq<char>|
            world_sizes_ok(w) && v@.subrange(i as int, v@.len() as int)
                == #[trigger] world_from_image_url(w, rest) ==> (r matches Some(p)
                && p.0.0@ == w.api_data.image_url && p.0.1@ == w.api_data.world_name && p.0.2@ == w.api_data.world_id && p.0.3@ == w.api_data.author_name && p.0.4@ == w.api_data.author_id && p.0.5 as int == w.api_data.capacity as int && p.0.6 == (w.api_data.recommended_capacity is Some) && p.0.7 as int == opt_i32_val(w.api_data.recommended_capacity) && p.0.8.deep_view() == w.api_data.tags && v@.subrange(p.1 as int, v@.len() as int) == world_from_pd_flag(w, rest)),
{
    proof {
        assert(v@.len() <= usize::MAX) by {
            vstd::std_specs::vec::axiom_spec_len(v);
        }
    }
    let f_image_url = get_str(v, i);
    proof {
        assert forall|w: WorldV, rest: Seq<char>|
            world_sizes_ok(w) && v@.subrange(i as int, v@.len() as int)
                == #[trigger] world_from_image_url(w, rest) implies (f_image_url matches Some(p)
            && p.0@ == w.api_data.image_url && v@.subrange(p.1 as int, v@.len() as int)
            == world_from_world_name(w, rest)) by {
            assert(v@.subrange(i as int, v@.len() as int) == enc_str(w.api_data.image_url) + world_from_world_name(w, rest));
            lemma_suffix_chop(v@, i as int, enc_str(w.api_data.image_url), world_from_world_name(w, rest));
        }
    }
    let (x_image_url, p_image_url) = match f_image_url {
        Some(p) => p,
        None => {
            return None;
        },
    };
    let f_world_name = get_str(v, p_image_url);
    proof {
        assert forall|w: WorldV, rest: Seq<char>|
            world_sizes_ok(w) && v@.subrange(i as int, v@.len() as int)
                == #[trigger] world_from_image_url(w, rest) implies (f_world_name matches Some(p)
            && p.0@ == w.api_data.world_name && v@.subrange(p.1 as int, v@.len() as int)
            == world_from_world_id(w, rest)) by {
            assert(v@.subrange(p_image_url as int, v@.len() as int) == enc_str(w.api_data.world_name) + world_from_world_id(w, rest));
            lemma_suffix_chop(v@, p_image_url as int, enc_str(w.api_data.world_name), world_from_world_id(w, rest));
        }
    }
    let (x_world_name, p_world_name) = match f_world_name {
        Some(p) => p,
        None => {
            return None;
        },
    };
    let f_world_id = get_str(v, p_world_name);
    proof {
        assert forall|w: WorldV, rest: Seq<char>|
            world_sizes_ok(w) && v@.subrange(i as int, v@.len() as int)
                == #[trigger] world_from_image_url(w, rest) implies (f_world_id matches Some(p)
            && p.0@ == w.api_data.world_id && v@.subrange(p.1 as int, v@.len() as int)
            == world_from_author_name(w, rest)) by {
            assert(v@.subrange(p_world_name as int, v@.len() as int) == enc_str(w.api_data.world_id) + world_from_author_name(w, rest));
            lemma_suffix_chop(v@, p_world_name as int, enc_str(w.api_data.world_id), world_from_author_name(w, rest));
        }
    }
    let (x_world_id, p_world_id) = match f_world_id {
        Some(p) => p,
        None => {
            return None;
        },
    };
    let f_author_name = get_str(v, p_world_id);
    proof {
        assert forall|w: WorldV, rest: Seq<char>|
            world_sizes_ok(w) && v@.subrange(i as int, v@.len() as int)
                == #[trigger] world_from_image_url(w, rest) implies (f_author_name matches Some(p)
            && p.0@ == w.api_data.author_name && v@.subrange(p.1 as int, v@.len() as int)
            == world_from_author_id(w, rest)) by {
            assert(v@.subrange(p_world_id as int, v@.len() as int) == enc_str(w.api_data.author_name) + world_from_author_id(w, rest));
            lemma_suffix_chop(v@, p_world_id as int, enc_str(w.api_data.author_name), world_from_author_id(w, rest));
        }
    }
    let (x_author_name, p_author_name) = match f_author_name {
        Some(p) => p,
        None => {
            return None;
        },
    };
    let f_author_id = get_str(v, p_author_name);
    proof {
        assert forall|w: WorldV, rest: Seq<char>|
            world_sizes_ok(w) && v@.subrange(i as int, v@.len() as int)
                == #[trigger] world_from_image_url(w, rest) implies (f_author_id matches Some(p)
            && p.0@ == w.api_data.author_id && v@.subrange(p.1 as int, v@.len() as int)
            == world_from_capacity(w, rest)) by {
            assert(v@.subrange(p_author_name as int, v@.len() as int) == enc_str(w.api_data.author_id) + world_from_capacity(w, rest));
            lemma_suffix_chop(v@, p_author_name as int, enc_str(w.api_data.author_id), world_from_capacity(w, rest));
        }
    }
    let (x_author_id, p_author_id) = match f_author_id {
        Some(p) => p,
        None => {
            return None;
        },
    };
    let f_capacity = get_i64(v, p_author_id);
    proof {
        assert forall|w: WorldV, rest: Seq<char>|
            world_sizes_ok(w) && v@.subrange(i as int, v@.len() as int)
                == #[trigger] world_from_image_url(w, rest) implies (f_capacity matches Some(p)
            && p.0 as int == w.api_data.capacity as int && v@.subrange(p.1 as int, v@.len() as int)
            == world_from_rc_flag(w, rest)) by {
            assert(v@.subrange(p_author_id as int, v@.len() as int) == enc_i64(w.api_data.capacity as int) + world_from_rc_flag(w, rest));
            lemma_suffix_chop(v@, p_author_id as int, enc_i64(w.api_data.capacity as int), world_from_rc_flag(w, rest));
        }
    }
    let (x_capacity, p_capacity) = match f_capacity {
        Some(p) => p,
        None => {
            return None;
        },
    };
    let f_rc_flag = get_bool(v, p_capacity);
    proof {
        assert forall|w: WorldV, rest: Seq<char>|
            world_sizes_ok(w) && v@.subrange(i as int, v@.len() as int)
                == #[trigger] world_from_image_url(w, rest) implies (f_rc_flag matches Some(p)
            && p.0 == (w.api_data.recommended_capacity is Some) && v@.subrange(p.1 as int, v@.len() as int)
            == world_from_rc_val(w, rest)) by {
            assert(v@.subrange(p_capacity as int, v@.len() as int) == enc_bool(w.api_data.recommended_capacity is Some) + world_from_rc_val(w, rest));
            lemma_suffix_chop(v@, p_capacity as int, enc_bool(w.api_data.recommended_capacity is Some), world_from_rc_val(w, rest));
        }
    }
    let (x_rc_flag, p_rc_flag) = match f_rc_flag {
        Some(p) => p,
        None => {
            return None;
        },
    };
    let f_rc_val = get_i64(v, p_rc_flag);
    proof {
        assert forall|w: WorldV, rest: Seq<char>|
            world_sizes_ok(w) && v@.subrange(i as int, v@.len() as int)
                == #[trigger] world_from_image_url(w, rest) implies (f_rc_val matches Some(p)
            && p.0 as int == opt_i32_val(w.api_data.recommended_capacity) && v@.subrange(p.1 as int, v@.len() as int)
            == world_from_tags(w, rest)) by {
            assert(v@.subrange(p_rc_flag as int, v@.len() as int) == enc_i64(opt_i32_val(w.api_data.recommended_capacity)) + world_from_tags(w, rest));
            lemma_suffix_chop(v@, p_rc_flag as int, enc_i64(opt_i32_val(w.api_data.recommended_capacity)), world_from_tags(w, rest));
        }
    }
    let (x_rc_val, p_rc_val) = match f_rc_val {
        Some(p) => p,
        None => {
            return None;
        },
    };
    let f_tags = get_str_list(v, p_rc_val);
    proof {
        assert forall|w: WorldV, rest: Seq<char>|
            world_sizes_ok(w) && v@.subrange(i as int, v@.len() as int)
                == #[trigger] world_from_image_url(w, rest) implies (f_tags matches Some(p)
            && p.0.deep_view() == w.api_data.tags && v@.subrange(p.1 as int, v@.len() as int)
            == world_from_pd_flag(w, rest)) by {
            assert(v@.subrange(p_rc_val as int, v@.len() as int) == enc_str_list(w.api_data.tags) + world_from_pd_flag(w, rest));
            lemma_suffix_chop(v@, p_rc_val as int, enc_str_list(w.api_data.tags), world_from_pd_flag(w, rest));
        }
    }
    let (x_tags, p_tags) = match f_tags {
        Some(p) => p,
        None => {
            return None;
        },
    };
    Some(((x_image_url, x_world_name, x_world_id, x_author_name, x_author_id, x_capacity, x_rc_flag, x_rc_val, x_tags), p_tags))
}

/// Reads the trailing provenance fields of a world record at `i`.
#[verifier::rlimit(100)]
#[verifier::spinoff_prover]
fn get_world_mid(v: &Vec<char>, i: usize) -> (r: Option<((bool, i64, i64, String, bool, i64, i64, Vec<String>), usize)>)
    requires
        i <= v@.len(),
    ensures
        r matches Some(p) ==> i <= p.1 <= v@.len(),
        forall|w: WorldV, rest: Seq<char>|
            world_sizes_ok(w) && v@.subrange(i as int, v@.len() as int)
                == #[trigger] world_from_pd_flag(w, rest) ==> (r matches Some(p)
                && p.0.0 == (w.api_data.publication_date is Some) && p.0.1 as int == opt_i64_val(w.api_data.publication_date) && p.0.2 as int == w.api_data.last_update as int && p.0.3@ == w.api_data.description && p.0.4 == (w.api_data.visits is Some) && p.0.5 as int == opt_i32_val(w.api_data.visits) && p.0.6 as int == w.api_data.favorites as int && p.0.7.deep_view() == w.api_data.platform && v@.subrange(p.1 as int, v@.len() as int) == world_from_date_added(w, rest)),
{
    proof {
        assert(v@.len() <= usize::MAX) by {
            vstd::std_specs::vec::axiom_spec_len(v);
        }
    }
    let f_pd_flag = get_bool(v, i);
    proof {
        assert forall|w: WorldV, rest: Seq<char>|
            world_sizes_ok(w) && v@.subrange(i as int, v@.len() as int)
                == #[trigger] world_from_pd_flag(w, rest) implies (f_pd_flag matches Some(p)
            && p.0 == (w.api_data.publication_date is Some) && v@.subrange(p.1 as int, v@.len() as int)
            == world_from_pd_val(w, rest)) by {
            assert(v@.subrange(i as int, v@.len() as int) == enc_bool(w.api_data.publication_date is Some) + world_from_pd_val(w, rest));
            lemma_suffix_chop(v@, i as int, enc_bool(w.api_data.publication_date is Some), world_from_pd_val(w, rest));
        }
    }
    let (x_pd_flag, p_pd_flag) = match f_pd_flag {
        Some(p) => p,
        None => {
            return None;
        },
    };
    let f_pd_val = get_i64(v, p_pd_flag);
    proof {
        assert forall|w: WorldV, rest: Seq<char>|
            world_sizes_ok(w) && v@.subrange(i as int, v@.len() as int)
                == #[trigger] world_from_pd_flag(w, rest) implies (f_pd_val matches Some(p)
            && p.0 as int == opt_i64_val(w.api_data.publication_date) && v@.subrange(p.1 as int, v@.len() as int)
            == world_from_last_update(w, rest)) by {
            assert(v@.subrange(p_pd_flag as int, v@.len() as int) == enc_i64(opt_i64_val(w.api_data.publication_date)) + world_from_last_update(w, rest));
            lemma_suffix_chop(v@, p_pd_flag as int, enc_i64(opt_i64_val(w.api_data.publication_date)), world_from_last_update(w, rest));
        }
    }
    let (x_pd_val, p_pd_val) = match f_pd_val {
        Some(p) => p,
        None => {
            return None;
        },
    };
    let f_last_update = get_i64(v, p_pd_val);
    proof {
        assert forall|w: WorldV, rest: Seq<char>|
            world_sizes_ok(w) && v@.subrange(i as int, v@.len() as int)
                == #[trigger] world_from_pd_flag(w, rest) implies (f_last_update matches Some(p)
            && p.0 as int == w.api_data.last_update as int && v@.subrange(p.1 as int, v@.len() as int)
            == world_from_description(w, rest)) by {
            assert(v@.subrange(p_pd_val as int, v@.len() as int) == enc_i64(w.api_data.last_update as int) + world_from_description(w, rest));
            lemma_suffix_chop(v@, p_pd_val as int, enc_i64(w.api_data.last_update as int), world_from_description(w, rest));
        }
    }
    let (x_last_update, p_last_update) = match f_last_update {
        Some(p) => p,
        None => {
            return None;
        },
    };
    let f_description = get_str(v, p_last_update);
    proof {
        assert forall|w: WorldV, rest: Seq<char>|
            world_sizes_ok(w) && v@.subrange(i as int, v@.len() as int)
                == #[trigger] world_from_pd_flag(w, rest) implies (f_description matches Some(p)
            && p.0@ == w.api_data.description && v@.subrange(p.1 as int, v@.len() as int)
            == world_from_visits_flag(w, rest)) by {
            assert(v@.subrange(p_last_update as int, v@.len() as int) == enc_str(w.api_data.description) + world_from_visits_flag(w, rest));
            lemma_suffix_chop(v@, p_last_update as int, enc_str(w.api_data.description), world_from_visits_flag(w, rest));
        }
    }
    let (x_description, p_description) = match f_description {
        Some(p) => p,
        None => {
            return None;
        },
    };
    let f_visits_flag = get_bool(v, p_description);
    proof {
        assert forall|w: WorldV, rest: Seq<char>|
            world_sizes_ok(w) && v@.subrange(i as int, v@.len() as int)
                == #[trigger] world_from_pd_flag(w, rest) implies (f_visits_flag matches Some(p)
            && p.0 == (w.api_data.visits is Some) && v@.subrange(p.1 as int, v@.len() as int)
            == world_from_visits_val(w, rest)) by {
            assert(v@.subrange(p_description as int, v@.len() as int) == enc_bool(w.api_data.visits is Some) + world_from_visits_val(w, rest));
            lemma_suffix_chop(v@, p_description as int, enc_bool(w.api_data.visits is Some), world_from_visits_val(w, rest));
        }
    }
    let (x_visits_flag, p_visits_flag) = match f_visits_flag {
        Some(p) => p,
        None => {
            return None;
        },
    };
    let f_visits_val = get_i64(v, p_visits_flag);
    proof {
        assert forall|w: WorldV, rest: Seq<char>|
            world_sizes_ok(w) && v@.subrange(i as int, v@.len() as int)
                == #[trigger] world_from_pd_flag(w, rest) implies (f_visits_val matches Some(p)
            && p.0 as int == opt_i32_val(w.api_data.visits) && v@.subrange(p.1 as int, v@.len() as int)
            == world_from_favorites(w, rest)) by {
            assert(v@.subrange(p_visits_flag as int, v@.len() as int) == enc_i64(opt_i32_val(w.api_data.visits)) + world_from_favorites(w, rest));
            lemma_suffix_chop(v@, p_visits_flag as int, enc_i64(opt_i32_val(w.api_data.visits)), world_from_favorites(w, rest));
        }
    }
    let (x_visits_val, p_visits_val) = match f_visits_val {
        Some(p) => p,
        None => {
            return None;
        },
    };
    let f_favorites = get_i64(v, p_visits_val);
    proof {
        assert forall|w: WorldV, rest: Seq<char>|
            world_sizes_ok(w) && v@.subrange(i as int, v@.len() as int)
                == #[trigger] world_from_pd_flag(w, rest) implies (f_favorites matches Some(p)
            && p.0 as int == w.api_data.favorites as int && v@.subrange(p.1 as int, v@.len() as int)
            == world_from_platform(w, rest)) by {
            assert(v@.subrange(p_visits_val as int, v@.len() as int) == enc_i64(w.api_data.favorites as int) + world_from_platform(w, rest));
            lemma_suffix_chop(v@, p_visits_val as int, enc_i64(w.api_data.favorites as int), world_from_platform(w, rest));
        }
    }
    let (x_favorites, p_favorites) = match f_favorites {
        Some(p) => p,
        None => {
            return None;
        },
    };
    let f_platform = get_str_list(v, p_favorites);
    proof {
        assert forall|w: WorldV, rest: Seq<char>|
            world_sizes_ok(w) && v@.subrange(i as int, v@.len() as int)
                == #[trigger] world_from_pd_flag(w, rest) implies (f_platform matches Some(p)
            && p.0.deep_view() == w.api_data.platform && v@.subrange(p.1 as int, v@.len() as int)
            == world_from_date_added(w, rest)) by {
            assert(v@.subrange(p_favorites as int, v@.len() as int) == enc_str_list(w.api_data.platform) + world_from_date_added(w, rest));
            lemma_suffix_chop(v@, p_favorites as int, enc_str_list(w.api_data.platform), world_from_date_added(w, rest));
        }
    }
    let (x_platform, p_platform) = match f_platform {
        Some(p) => p,
        None => {
            return None;
        },
    };
    Some(((x_pd_flag, x_pd_val, x_last_update, x_description, x_visits_flag, x_visits_val, x_favorites, x_platform), p_platform))
}

/// Reads the provenance half of a world record at `i`: on input that
/// continues with a record's field chain it returns the provenance fields
/// and stops at the user half.
#[verifier::rlimit(100)]
#[verifier::spinoff_prover]
fn get_world_api(v: &Vec<char>, i: usize) -> (r: Option<(crate::entities::WorldApiData, usize)>)
    requires
        i <= v@.len(),
    ensures
        r matches Some(p) ==> i <= p.1 <= v@.len(),
        forall|w: WorldV, rest: Seq<char>|
            world_sizes_ok(w) && v@.subrange(i as int, v@.len() as int)
                == #[trigger] world_from_image_url(w, rest) ==> (r matches Some(p) && p.0@
                == w.api_data && v@.subrange(p.1 as int, v@.len() as int) == world_from_date_added(
                w,
                rest,
            )),
{
    let head_opt = get_world_head(v, i);
    let (head, mid_pos) = match head_opt {
        Some(p) => p,
        None => {
            return None;
        },
    };
    let mid_opt = get_world_mid(v, mid_pos);
    let (mid, end_pos) = match mid_opt {
        Some(p) => p,
        None => {
            return None;
        },
    };
    let (x_image_url, x_world_name, x_world_id, x_author_name, x_author_id, x_capacity, x_rc_flag, x_rc_val, x_tags) =
        head;
    let (x_pd_flag, x_pd_val, x_last_update, x_description, x_visits_flag, x_visits_val, x_favorites, x_platform) =
        mid;
    if x_capacity < -2147483648 || x_capacity > 2147483647 {
        return None;
    }
    if x_rc_val < -2147483648 || x_rc_val > 2147483647 {
        return None;
    }
    if x_visits_val < -2147483648 || x_visits_val > 2147483647 {
        return None;
    }
    if x_favorites < -2147483648 || x_favorites > 2147483647 {
        return None;
    }
    let api = crate::entities::WorldApiData {
        image_url: x_image_url,
        world_name: x_world_name,
        world_id: x_world_id,
        author_name: x_author_name,
        author_id: x_author_id,
        capacity: x_capacity as i32,
        recommended_capacity: if x_rc_flag {
            Some(x_rc_val as i32)
        } else {
            None
        },
        tags: x_tags,
        publication_date: if x_pd_flag {
            Some(x_pd_val)
        } else {
            None
        },
        last_update: x_last_update,
        description: x_description,
        visits: if x_visits_flag {
            Some(x_visits_val as i32)
        } else {
            None
        },
        favorites: x_favorites as i32,
        platform: x_platform,
    };
    proof {
        assert forall|w: WorldV, rest: Seq<char>|
            world_sizes_ok(w) && v@.subrange(i as int, v@.len() as int)
                == #[trigger] world_from_image_url(w, rest) implies api@ =~~= w.api_data by {}
    }
    Some((api, end_pos))
}

/// Reads the user half of a world record at `i`: on input that continues
/// with the user field chain it returns the user fields and stops right
/// after the record.
#[verifier::rlimit(100)]
#[verifier::spinoff_prover]
fn get_world_user(v: &Vec<char>, i: usize) -> (r: Option<(crate::entities::WorldUserData, usize)>)
    requires
        i <= v@.len(),
    ensures
        r matches Some(p) ==> i <= p.1 <= v@.len(),
        forall|w: WorldV, rest: Seq<char>|
            world_sizes_ok(w) && v@.subrange(i as int, v@.len() as int)
                == #[trigger] world_from_date_added(w, rest) ==> (r matches Some(p) && p.0@
                == w.user_data && v@.subrange(p.1 as int, v@.len() as int) == rest),
{
    proof {
        assert(v@.len() <= usize::MAX) by {
            vstd::std_specs::vec::axiom_spec_len(v);
        }
    }
    let f_date_added = get_i64(v, i);
    proof {
        assert forall|w: WorldV, rest: Seq<char>|
            world_sizes_ok(w) && v@.subrange(i as int, v@.len() as int) == #[trigger] world_from_date_added(
                w,
                rest,
            ) implies (f_date_added matches Some(p) && p.0 as int == w.user_data.date_added as int && v@.subrange(p.1 as int, v@.len() as int) == world_from_last_checked(w, rest)) by {
            assert(v@.subrange(i as int, v@.len() as int) == enc_i64(w.user_data.date_added as int)
                + world_from_last_checked(w, rest));
            lemma_suffix_chop(v@, i as int, enc_i64(w.user_data.date_added as int), world_from_last_checked(w, rest));
        }
    }
    let (x_date_added, p_date_added) = match f_date_added {
        Some(p) => p,
        None => {
            return None;
        },
    };
    let f_last_checked = get_i64(v, p_date_added);
    proof {
        assert forall|w: WorldV, rest: Seq<char>|
            world_sizes_ok(w) && v@.subrange(i as int, v@.len() as int) == #[trigger] world_from_date_added(
                w,
                rest,
            ) implies (f_last_checked matches Some(p) && p.0 as int == w.user_data.last_checked as int && v@.subrange(p.1 as int, v@.len() as int) == world_from_memo(w, rest)) by {
            assert(v@.subrange(p_date_added as int, v@.len() as int) == enc_i64(w.user_data.last_checked as int)
                + world_from_memo(w, rest));
            lemma_suffix_chop(v@, p_date_added as int, enc_i64(w.user_data.last_checked as int), world_from_memo(w, rest));
        }
    }
    let (x_last_checked, p_last_checked) = match f_last_checked {
        Some(p) => p,
        None => {
            return None;
        },
    };
    let f_memo = get_str(v, p_last_checked);
    proof {
        assert forall|w: WorldV, rest: Seq<char>|
            world_sizes_ok(w) && v@.subrange(i as int, v@.len() as int) == #[trigger] world_from_date_added(
                w,
                rest,
            ) implies (f_memo matches Some(p) && p.0@ == w.user_data.memo && v@.subrange(p.1 as int, v@.len() as int) == world_from_folders(w, rest)) by {
            assert(v@.subrange(p_last_checked as int, v@.len() as int) == enc_str(w.user_data.memo)
                + world_from_folders(w, rest));
            lemma_suffix_chop(v@, p_last_checked as int, enc_str(w.user_data.memo), world_from_folders(w, rest));
        }
    }
    let (x_memo, p_memo) = match f_memo {
        Some(p) => p,
        None => {
            return None;
        },
    };
    let f_folders = get_str_list(v, p_memo);
    proof {
        assert forall|w: WorldV, rest: Seq<char>|
            world_sizes_ok(w) && v@.subrange(i as int, v@.len() as int) == #[trigger] world_from_date_added(
                w,
                rest,
            ) implies (f_folders matches Some(p) && p.0.deep_view() == w.user_data.folders && v@.subrange(p.1 as int, v@.len() as int) == world_from_hidden(w, rest)) by {
            assert(v@.subrange(p_memo as int, v@.len() as int) == enc_str_list(w.user_data.folders)
                + world_from_hidden(w, rest));
            lemma_suffix_chop(v@, p_memo as int, enc_str_list(w.user_data.folders), world_from_hidden(w, rest));
        }
    }
    let (x_folders, p_folders) = match f_folders {
        Some(p) => p,
        None => {
            return None;
        },
    };
    let f_hidden = get_bool(v, p_folders);
    proof {
        assert forall|w: WorldV, rest: Seq<char>|
            world_sizes_ok(w) && v@.subrange(i as int, v@.len() as int) == #[trigger] world_from_date_added(
                w,
                rest,
            ) implies (f_hidden matches Some(p) && p.0 == (w.user_data.hidden) && v@.subrange(p.1 as int, v@.len() as int) == world_from_is_photographed(w, rest)) by {
            assert(v@.subrange(p_folders as int, v@.len() as int) == enc_bool(w.user_data.hidden)
                + world_from_is_photographed(w, rest));
            lemma_suffix_chop(v@, p_folders as int, enc_bool(w.user_data.hidden), world_from_is_photographed(w, rest));
        }
    }
    let (x_hidden, p_hidden) = match f_hidden {
        Some(p) => p,
        None => {
            return None;
        },
    };
    let f_is_photographed = get_bool(v, p_hidden);
    proof {
        assert forall|w: WorldV, rest: Seq<char>|
            world_sizes_ok(w) && v@.subrange(i as int, v@.len() as int) == #[trigger] world_from_date_added(
                w,
                rest,
            ) implies (f_is_photographed matches Some(p) && p.0 == (w.user_data.is_photographed) && v@.subrange(p.1 as int, v@.len() as int) == world_from_is_shared(w, rest)) by {
            assert(v@.subrange(p_hidden as int, v@.len() as int) == enc_bool(w.user_data.is_photographed)
                + world_from_is_shared(w, rest));
            lemma_suffix_chop(v@, p_hidden as int, enc_bool(w.user_data.is_photographed), world_from_is_shared(w, rest));
        }
    }
    let (x_is_photographed, p_is_photographed) = match f_is_photographed {
        Some(p) => p,
        None => {
            return None;
        },
    };
    let f_is_shared = get_bool(v, p_is_photographed);
    proof {
        assert forall|w: WorldV, rest: Seq<char>|
            world_sizes_ok(w) && v@.subrange(i as int, v@.len() as int) == #[trigger] world_from_date_added(
                w,
                rest,
            ) implies (f_is_shared matches Some(p) && p.0 == (w.user_data.is_shared) && v@.subrange(p.1 as int, v@.len() as int) == world_from_is_favorite(w, rest)) by {
            assert(v@.subrange(p_is_photographed as int, v@.len() as int) == enc_bool(w.user_data.is_shared)
                + world_from_is_favorite(w, rest));
            lemma_suffix_chop(v@, p_is_photographed as int, enc_bool(w.user_data.is_shared), world_from_is_favorite(w, rest));
        }
    }
    let (x_is_shared, p_is_shared) = match f_is_shared {
        Some(p) => p,
        None => {
            return None;
        },
    };
    let f_is_favorite = get_bool(v, p_is_shared);
    proof {
        assert forall|w: WorldV, rest: Seq<char>|
            world_sizes_ok(w) && v@.subrange(i as int, v@.len() as int) == #[trigger] world_from_date_added(
                w,
                rest,
            ) implies (f_is_favorite matches Some(p) && p.0 == (w.user_data.is_favorite) && v@.subrange(p.1 as int, v@.len() as int) == rest) by {
            assert(v@.subrange(p_is_shared as int, v@.len() as int) == enc_bool(w.user_data.is_favorite)
                + rest);
            lemma_suffix_chop(v@, p_is_shared as int, enc_bool(w.user_data.is_favorite), rest);
        }
    }
    let (x_is_favorite, p_is_favorite) = match f_is_favorite {
        Some(p) => p,
        None => {
            return None;
        },
    };
    let user = crate::entities::WorldUserData {
        date_added: x_date_added,
        last_checked: x_last_checked,
        memo: x_memo,
        folders: x_folders,
        hidden: x_hidden,
        is_photographed: x_is_photographed,
        is_shared: x_is_shared,
        is_favorite: x_is_favorite,
    };
    proof {
        assert forall|w: WorldV, rest: Seq<char>|
            world_sizes_ok(w) && v@.subrange(i as int, v@.len() as int)
                == #[trigger] world_from_date_added(w, rest) implies user@ =~~= w.user_data by {}
    }
    Some((user, p_is_favorite))
}

/// Reads a world record's encoding at `i`; see [`get_folder`] for the
/// contract's shape.
#[verifier::rlimit(100)]
#[verifier::spinoff_prover]
pub fn get_world(v: &Vec<char>, i: usize) -> (r: Option<(WorldModel, usize)>)
    requires
        i <= v@.len(),
    ensures
        r matches Some(p) ==> i <= p.1 <= v@.len(),
        forall|w: WorldV, rest: Seq<char>|
            world_sizes_ok(w) && v@.subrange(i as int, v@.len() as int) == #[trigger] (enc_world(w)
                + rest) ==> (r matches Some(p) && p.0@ == w && p.1 == i + enc_world(w).len()),
{
    proof {
        assert forall|w: WorldV, rest: Seq<char>|
            world_sizes_ok(w) && v@.subrange(i as int, v@.len() as int) == #[trigger] (enc_world(w)
                + rest) implies v@.subrange(i as int, v@.len() as int) == world_from_image_url(
            w,
            rest,
        ) by {
            lemma_enc_world_append(w, rest);
        }
    }
    let api_opt = get_world_api(v, i);
    let (api, mid) = match api_opt {
        Some(p) => p,
        None => {
            return None;
        },
    };
    let user_opt = get_world_user(v, mid);
    let (user, end) = match user_opt {
        Some(p) => p,
        None => {
            return None;
        },
    };
    let out_world = WorldModel { api_data: api, user_data: user };
    proof {
        assert forall|w: WorldV, rest: Seq<char>|
            world_sizes_ok(w) && v@.subrange(i as int, v@.len() as int) == #[trigger] (enc_world(w)
                + rest) implies out_world@ =~~= w && end == i + enc_world(w).len() by {
            lemma_enc_world_append(w, rest);
            assert(v@.subrange(end as int, v@.len() as int) == rest);
            assert(v@.subrange(i as int, v@.len() as int).len() == enc_world(w).len()
                + rest.len());
            assert(v@.subrange(end as int, v@.len() as int).len() == rest.len());
        }
    }
    Some((out_world, end))
}

/// The world collection: its count, then the records in order.
pub open spec fn enc_world_items(ws: Seq<WorldV>) -> Seq<char>
    decreases ws.len(),
{
    if ws.len() == 0 {
        Seq::<char>::empty()
    } else {
        enc_world_items(ws.drop_last()) + enc_world(ws.last())
    }
}

/// The world collection: its count, then the records in order.
pub open spec fn enc_worlds(ws: Seq<WorldV>) -> Seq<char> {
    enc_u64(ws.len()) + enc_world_items(ws)
}

/// Whether every world of a collection fits the format's length
/// prefixes; any collection held in memory does.
pub open spec fn worlds_sizes_ok(ws: Seq<WorldV>) -> bool {
    ws.len() <= u64::MAX && (forall|i: int| 0 <= i < ws.len() ==> world_sizes_ok(#[trigger] ws[i]))
}

/// Whether a text is the encoding of some world collection.
pub open spec fn is_encoded_worlds(c: Seq<char>) -> bool {
    exists|ws: Seq<WorldV>| c == #[trigger] enc_worlds(ws)
}

/// Splitting the record run of a world collection at `k`.
#[verifier::rlimit(100)]
#[verifier::spinoff_prover]
proof fn lemma_world_items_head(ws: Seq<WorldV>, k: int)
    requires
        0 <= k < ws.len(),
    ensures
        enc_world_items(ws.subrange(k, ws.len() as int)) == enc_world(ws[k]) + enc_world_items(
            ws.subrange(k + 1, ws.len() as int),
        ),
        enc_world_items(ws.subrange(0, k + 1)) == enc_world_items(ws.subrange(0, k)) + enc_world(
            ws[k],
        ),
{
    lemma_world_items_split(ws.subrange(k, ws.len() as int));
    assert(ws.subrange(k, ws.len() as int).subrange(
        1,
        ws.subrange(k, ws.len() as int).len() as int,
    ) =~= ws.subrange(k + 1, ws.len() as int));
    assert(ws.subrange(k, ws.len() as int)[0] == ws[k]);
    assert(ws.subrange(0, k + 1).drop_last() =~= ws.subrange(0, k));
    assert(ws.subrange(0, k + 1).last() == ws[k]);
}

/// A nonempty world collection's record run is its head's encoding, then
/// the rest.
#[verifier::rlimit(100)]
#[verifier::spinoff_prover]
proof fn lemma_world_items_split(ws: Seq<WorldV>)
    requires
        ws.len() >= 1,
    ensures
        enc_world_items(ws) == enc_world(ws[0]) + enc_world_items(ws.subrange(1, ws.len() as int)),
    decreases ws.len(),
{
    if ws.len() == 1 {
        assert(ws.drop_last() =~= Seq::<WorldV>::empty());
        assert(enc_world_items(ws.drop_last()) =~= Seq::<char>::empty());
        assert(ws.subrange(1, 1) =~= Seq::<WorldV>::empty());
        assert(enc_world_items(ws) =~= enc_world(ws[0]) + enc_world_items(ws.subrange(1, 1)));
    } else {
        let t = ws.drop_last();
        lemma_world_items_split(t);
        assert(t[0] == ws[0]);
        assert(t.subrange(1, t.len() as int) =~= ws.subrange(1, ws.len() as int).drop_last());
        assert(ws.subrange(1, ws.len() as int).last() == ws.last());
        assert(enc_world_items(ws.subrange(1, ws.len() as int)) == enc_world_items(
            ws.subrange(1, ws.len() as int).drop_last(),
        ) + enc_world(ws.last()));
        assert(enc_world_items(ws) =~= enc_world(ws[0]) + enc_world_items(
            ws.subrange(1, ws.len() as int),
        ));
    }
}

/// Encodes the world collection.
#[verifier::rlimit(100)]
#[verifier::spinoff_prover]
pub fn encode_worlds(worlds: &Vec<WorldModel>) -> (r: String)
    ensures
        r@ == enc_worlds(crate::store::wviews(worlds@)),
{
    let mut out: Vec<char> = Vec::new();
    proof {
        vstd::std_specs::vec::axiom_spec_len(worlds);
    }
    put_u64(&mut out, worlds.len() as u64);
    let ghost wv = crate::store::wviews(worlds@);
    let ghost mid = out@;
    let mut i: usize = 0;
    proof {
        assert(wv.len() == worlds@.len());
        assert(enc_world_items(wv.subrange(0, 0)) =~= Seq::<char>::empty());
        assert(out@ =~= mid + enc_world_items(wv.subrange(0, 0)));
    }
    while i < worlds.len()
        invariant
            0 <= i <= worlds@.len(),
            wv == crate::store::wviews(worlds@),
            wv.len() == worlds@.len(),
            out@ == mid + enc_world_items(wv.subrange(0, i as int)),
        decreases worlds@.len() - i,
    {
        proof {
            assert(wv[i as int] == worlds@[i as int]@);
        }
        put_world(&mut out, &worlds[i]);
        proof {
            assert(wv.subrange(0, i + 1).drop_last() =~= wv.subrange(0, i as int));
            assert(wv.subrange(0, i + 1).last() == wv[i as int]);
            assert(out@ =~= mid + enc_world_items(wv.subrange(0, i + 1)));
        }
        i = i + 1;
    }
    proof {
        assert(wv.subrange(0, wv.len() as int) =~= wv);
        assert(out@ =~= enc_worlds(wv));
    }
    crate::text::string_from_chars(out.as_slice())
}

/// Decodes the world collection: on the exact text [`encode_worlds`]
/// writes it returns the collection encoded, and it returns nothing on
/// any text that is not such an encoding (the decoded value re-encodes to
/// the input, letter for letter).
#[verifier::rlimit(100)]
#[verifier::spinoff_prover]
pub fn decode_worlds(text: &str) -> (r: Option<Vec<WorldModel>>)
    ensures
        forall|ws: Seq<WorldV>|
            worlds_sizes_ok(ws) && text@ == #[trigger] enc_worlds(ws) ==> (r matches Some(out)
                && crate::store::wviews(out@) == ws),
        r matches Some(out) ==> text@ == enc_worlds(crate::store::wviews(out@)),
{
    let v = crate::text::chars_of_str(text);
    let count_opt = get_u64(&v, 0);
    proof {
        assert forall|ws: Seq<WorldV>|
            worlds_sizes_ok(ws) && text@ == #[trigger] enc_worlds(ws) implies count_opt == Some(
            ((ws.len() as u64, enc_u64(ws.len()).len() as usize)),
        ) && v@.subrange(enc_u64(ws.len()).len() as int, v@.len() as int) == enc_world_items(ws)
            + Seq::<char>::empty() by {
            assert(v@.subrange(0, v@.len() as int) =~= enc_u64(ws.len()) + (enc_world_items(ws)
                + Seq::<char>::empty()));
            lemma_suffix_chop(v@, 0, enc_u64(ws.len()), enc_world_items(ws) + Seq::<char>::empty());
            assert(v@.len() <= usize::MAX) by {
                vstd::std_specs::vec::axiom_spec_len(&v);
            }
        }
    }
    let (n, start) = match count_opt {
        Some(p) => p,
        None => {
            return None;
        },
    };
    let mut out: Vec<WorldModel> = Vec::new();
    let mut pos = start;
    let mut k: u64 = 0;
    proof {
        assert forall|ws: Seq<WorldV>|
            worlds_sizes_ok(ws) && text@ == #[trigger] enc_worlds(ws) implies ws.len() == n
            && start == enc_u64(ws.len()).len() && v@.subrange(start as int, v@.len() as int)
            == enc_world_items(ws) + Seq::<char>::empty() && crate::store::wviews(out@)
            =~= ws.subrange(0, 0) && pos == start + enc_world_items(ws.subrange(0, 0)).len()
            && v@.subrange(pos as int, v@.len() as int) == enc_world_items(
            ws.subrange(0, ws.len() as int),
        ) + Seq::<char>::empty() by {
            assert(v@.subrange(0, v@.len() as int) =~= enc_u64(ws.len()) + (enc_world_items(ws)
                + Seq::<char>::empty()));
            lemma_suffix_chop(v@, 0, enc_u64(ws.len()), enc_world_items(ws) + Seq::<char>::empty());
            assert(v@.len() <= usize::MAX) by {
                vstd::std_specs::vec::axiom_spec_len(&v);
            }
            assert(enc_world_items(ws.subrange(0, 0)) =~= Seq::<char>::empty());
            assert(crate::store::wviews(out@) =~= ws.subrange(0, 0));
            assert(ws.subrange(0, ws.len() as int) =~= ws);
        }
    }
    while k < n
        invariant
            k <= n,
            0 <= pos <= v@.len(),
            0 <= start <= v@.len(),
            out@.len() == k,
            forall|ws: Seq<WorldV>|
                worlds_sizes_ok(ws) && text@ == #[trigger] enc_worlds(ws) ==> ws.len() == n
                    && crate::store::wviews(out@) =~= ws.subrange(0, k as int) && pos == start
                    + enc_world_items(ws.subrange(0, k as int)).len() && v@.subrange(
                    pos as int,
                    v@.len() as int,
                ) == enc_world_items(ws.subrange(k as int, ws.len() as int))
                    + Seq::<char>::empty(),
        decreases n - k,
    {
        let ghost pre_out = out@;
        let ghost pre_pos = pos as int;
        let item_opt = get_world(&v, pos);
        proof {
            assert forall|ws: Seq<WorldV>|
                worlds_sizes_ok(ws) && text@ == #[trigger] enc_worlds(ws) implies (
            item_opt matches Some(p) && p.0@ == ws[k as int] && p.1 == pre_pos + enc_world(
                ws[k as int],
            ).len()) by {
                lemma_world_items_head(ws, k as int);
                assert(world_sizes_ok(ws[k as int]));
                assert(v@.subrange(pre_pos, v@.len() as int) =~= enc_world(ws[k as int]) + (
                enc_world_items(ws.subrange(k as int + 1, ws.len() as int))
                    + Seq::<char>::empty()));
            }
        }
        let (record, next) = match item_opt {
            Some(p) => p,
            None => {
                return None;
            },
        };
        out.push(record);
        pos = next;
        proof {
            assert forall|ws: Seq<WorldV>|
                worlds_sizes_ok(ws) && text@ == #[trigger] enc_worlds(ws) implies crate::store::wviews(
                out@,
            ) =~= ws.subrange(0, k as int + 1) && pos == start + enc_world_items(
                ws.subrange(0, k as int + 1),
            ).len() && v@.subrange(pos as int, v@.len() as int) == enc_world_items(
                ws.subrange(k as int + 1, ws.len() as int),
            ) + Seq::<char>::empty() by {
                lemma_world_items_head(ws, k as int);
                assert(v@.subrange(pre_pos, v@.len() as int) =~= enc_world(ws[k as int]) + (
                enc_world_items(ws.subrange(k as int + 1, ws.len() as int))
                    + Seq::<char>::empty()));
                assert(out@[out@.len() - 1]@ == ws[k as int]);
                assert forall|a: int| 0 <= a < k + 1 implies crate::store::wviews(out@)[a]
                    == ws.subrange(0, k as int + 1)[a] by {
                    assert(crate::store::wviews(out@)[a] == out@[a]@);
                    if a < k as int {
                        assert(out@[a] == pre_out[a]);
                        assert(crate::store::wviews(pre_out)[a] == pre_out[a]@);
                    }
                }
                assert(ws.subrange(0, k as int + 1).drop_last() =~= ws.subrange(0, k as int));
                assert(ws.subrange(0, k as int + 1).last() == ws[k as int]);
                lemma_suffix_chop(
                    v@,
                    pre_pos,
                    enc_world(ws[k as int]),
                    enc_world_items(ws.subrange(k as int + 1, ws.len() as int))
                        + Seq::<char>::empty(),
                );
            }
        }
        k = k + 1;
    }
    proof {
        assert forall|ws: Seq<WorldV>|
            worlds_sizes_ok(ws) && text@ == #[trigger] enc_worlds(ws) implies crate::store::wviews(
            out@,
        ) == ws by {
            assert(ws.subrange(0, ws.len() as int) =~= ws);
            assert(crate::store::wviews(out@) =~= ws);
        }
    }
    // The decoded collection must re-encode to the input exactly: any
    // text that is not a well-formed encoding is refused.
    let reencoded = encode_worlds(&out);
    if reencoded == text.to_owned() {
        Some(out)
    } else {
        None
    }
}

} // verus!
