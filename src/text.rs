use vstd::prelude::*;
use vstd::string::*;

verus! {

/// What `str::to_lowercase` makes of a string of characters.
pub uninterp spec fn lower_of(s: Seq<char>) -> Seq<char>;

/// Relies on `str::to_lowercase`: the result is the lowercase form of `s`,
/// a function of its characters alone.
#[verifier::external_body]
pub(crate) fn lowercase(s: &str) -> (r: String)
    ensures
        r@ == lower_of(s@),
{
    s.to_lowercase()
}

pub open spec fn digit_char(d: nat) -> char {
    if d == 0 {
        '0'
    } else if d == 1 {
        '1'
    } else if d == 2 {
        '2'
    } else if d == 3 {
        '3'
    } else if d == 4 {
        '4'
    } else if d == 5 {
        '5'
    } else if d == 6 {
        '6'
    } else if d == 7 {
        '7'
    } else if d == 8 {
        '8'
    } else {
        '9'
    }
}

/// Decimal digits of a natural number, most significant first, no leading zeros.
pub open spec fn decimal_of_nat(n: nat) -> Seq<char>
    decreases n,
{
    if n < 10 {
        seq![digit_char(n)]
    } else {
        decimal_of_nat(n / 10).push(digit_char(n % 10))
    }
}

/// Decimal form of an integer, with a leading `-` when it is negative.
pub open spec fn decimal_of(n: int) -> Seq<char> {
    if n < 0 {
        seq!['-'] + decimal_of_nat((-n) as nat)
    } else {
        decimal_of_nat(n as nat)
    }
}

fn digit_str(d: u64) -> (r: &'static str)
    requires
        d < 10,
    ensures
        r@ == seq![digit_char(d as nat)],
{
    match d {
        0 => {
            proof { reveal_strlit("0"); }
            assert("0"@ =~= seq!['0']);
            "0"
        },
        1 => {
            proof { reveal_strlit("1"); }
            assert("1"@ =~= seq!['1']);
            "1"
        },
        2 => {
            proof { reveal_strlit("2"); }
            assert("2"@ =~= seq!['2']);
            "2"
        },
        3 => {
            proof { reveal_strlit("3"); }
            assert("3"@ =~= seq!['3']);
            "3"
        },
        4 => {
            proof { reveal_strlit("4"); }
            assert("4"@ =~= seq!['4']);
            "4"
        },
        5 => {
            proof { reveal_strlit("5"); }
            assert("5"@ =~= seq!['5']);
            "5"
        },
        6 => {
            proof { reveal_strlit("6"); }
            assert("6"@ =~= seq!['6']);
            "6"
        },
        7 => {
            proof { reveal_strlit("7"); }
            assert("7"@ =~= seq!['7']);
            "7"
        },
        8 => {
            proof { reveal_strlit("8"); }
            assert("8"@ =~= seq!['8']);
            "8"
        },
        _ => {
            proof { reveal_strlit("9"); }
            assert("9"@ =~= seq!['9']);
            "9"
        },
    }
}

fn append_decimal(out: &mut String, n: u64)
    ensures
        final(out)@ == old(out)@ + decimal_of_nat(n as nat),
    decreases n,
{
    if n >= 10 {
        append_decimal(out, n / 10);
    }
    out.append(digit_str(n % 10));
    assert(out@ =~= old(out)@ + decimal_of_nat(n as nat));
}

pub(crate) fn copy_string(s: &String) -> (r: String)
    ensures
        r@ == s@,
{
    s.clone()
}

/// The decimal form of `n`, as `i32`'s `Display` writes it.
pub fn decimal_string(n: i32) -> (r: String)
    ensures
        r@ == decimal_of(n as int),
{
    let mut out = String::new();
    if n < 0 {
        out.append("-");
        proof { reveal_strlit("-"); }
        let m: i64 = n as i64;
        append_decimal(&mut out, (-m) as u64);
        assert(out@ =~= decimal_of(n as int));
    } else {
        append_decimal(&mut out, n as u64);
        assert(out@ =~= decimal_of(n as int));
    }
    out
}


/// `s` without its trailing dots.
pub open spec fn trim_dots(s: Seq<char>) -> Seq<char>
    decreases s.len(),
{
    if s.len() > 0 && s.last() == '.' {
        trim_dots(s.drop_last())
    } else {
        s
    }
}

/// `suf` is a suffix of `s`, character for character.
pub open spec fn is_suffix(suf: Seq<char>, s: Seq<char>) -> bool {
    suf.len() <= s.len() && s.subrange(s.len() - suf.len(), s.len() as int) == suf
}

/// Number of characters of `s` that are left once its trailing dots are cut.
pub(crate) fn trimmed_len(s: &str) -> (r: usize)
    ensures
        r <= s@.len(),
        trim_dots(s@) == s@.subrange(0, r as int),
{
    let mut n = s.unicode_len();
    assert(s@.subrange(0, n as int) =~= s@);
    while n > 0 && s.get_char(n - 1) == '.'
        invariant
            n <= s@.len(),
            trim_dots(s@) == trim_dots(s@.subrange(0, n as int)),
        decreases n,
    {
        assert(s@.subrange(0, n - 1) =~= s@.subrange(0, n as int).drop_last());
        n = n - 1;
    }
    n
}

/// Whether `suffix`, without trailing dots, ends `name`, without trailing dots.
pub fn ends_with_trimmed(name: &str, suffix: &str) -> (r: bool)
    ensures
        r == is_suffix(trim_dots(suffix@), trim_dots(name@)),
{
    let hn = trimmed_len(name);
    let zn = trimmed_len(suffix);
    if zn > hn {
        return false;
    }
    let off = hn - zn;
    let mut k: usize = 0;
    while k < zn
        invariant
            zn <= hn,
            hn <= name@.len(),
            zn <= suffix@.len(),
            off == hn - zn,
            k <= zn,
            trim_dots(name@) == name@.subrange(0, hn as int),
            trim_dots(suffix@) == suffix@.subrange(0, zn as int),
            forall|j: int| 0 <= j < k ==> name@[off + j] == suffix@[j],
        decreases zn - k,
    {
        if name.get_char(off + k) != suffix.get_char(k) {
            let ghost t = name@.subrange(0, hn as int);
            let ghost u = suffix@.subrange(0, zn as int);
            assert(t.subrange(off as int, hn as int)[k as int] != u[k as int]);
            assert(t.subrange(t.len() - u.len(), t.len() as int) != u);
            return false;
        }
        k = k + 1;
    }
    assert(name@.subrange(0, hn as int).subrange(off as int, hn as int) =~= suffix@.subrange(
        0,
        zn as int,
    ));
    true
}

} // verus!
