//! The few things the app says, put together from their parts.

use vstd::prelude::*;
use vstd::string::{StrSliceExecFns, StringExecFns};

verus! {

/// One decimal digit.
pub open spec fn digit_char(d: nat) -> char {
    ((48 + d) as u8) as char
}

/// A number in decimal.
pub open spec fn digits(n: nat) -> Seq<char>
    decreases n,
{
    if n < 10 {
        seq![digit_char(n)]
    } else {
        digits(n / 10).push(digit_char(n % 10))
    }
}

fn digit(d: u64) -> (s: &'static str)
    requires
        d < 10,
    ensures
        s@ == seq![digit_char(d as nat)],
{
    proof {
        reveal_strlit("0");
        reveal_strlit("1");
        reveal_strlit("2");
        reveal_strlit("3");
        reveal_strlit("4");
        reveal_strlit("5");
        reveal_strlit("6");
        reveal_strlit("7");
        reveal_strlit("8");
        reveal_strlit("9");
    }
    let s: &'static str = if d == 0 {
        "0"
    } else if d == 1 {
        "1"
    } else if d == 2 {
        "2"
    } else if d == 3 {
        "3"
    } else if d == 4 {
        "4"
    } else if d == 5 {
        "5"
    } else if d == 6 {
        "6"
    } else if d == 7 {
        "7"
    } else if d == 8 {
        "8"
    } else {
        "9"
    };
    assert(s@ =~= seq![digit_char(d as nat)]);
    s
}

/// A number in decimal.
pub fn decimal(n: u64) -> (s: String)
    ensures
        s@ == digits(n as nat),
    decreases n,
{
    if n < 10 {
        String::from_str(digit(n))
    } else {
        let mut s: String = decimal(n / 10);
        s.append(digit(n % 10));
        assert(s@ =~= digits(n as nat));
        s
    }
}

/// Lines with a line break between each and the next.
pub open spec fn lines(parts: Seq<String>) -> Seq<char>
    decreases parts.len(),
{
    if parts.len() == 0 {
        seq![]
    } else if parts.len() == 1 {
        parts[0]@
    } else {
        lines(parts.drop_last()) + "\n"@ + parts.last()@
    }
}

pub fn join_lines(parts: &Vec<String>) -> (s: String)
    ensures
        s@ == lines(parts@),
{
    let mut s: String = String::new();
    let mut i: usize = 0;
    while i < parts.len()
        invariant
            i <= parts@.len(),
            s@ == lines(parts@.take(i as int)),
        decreases parts@.len() - i,
    {
        if i > 0 {
            s.append("\n");
        }
        s.append(parts[i].as_str());
        i += 1;
        proof {
            assert(parts@.take(i as int).drop_last() =~= parts@.take(i - 1));
            assert(parts@.take(i as int).last() == parts@[i - 1]);
            if i == 1 {
                assert(s@ =~= parts@[0]@);
            }
        }
    }
    assert(parts@.take(i as int) =~= parts@);
    s
}

/// A letter in lower case, if it is one of the twenty-six.
pub open spec fn lower(c: char) -> int {
    if 'A' <= c && c <= 'Z' {
        c as int + 32
    } else {
        c as int
    }
}

/// The same but for upper and lower case?
pub open spec fn same_word(a: Seq<char>, b: Seq<char>) -> bool {
    a.len() == b.len() && forall|i: int| 0 <= i < a.len() ==> lower(#[trigger] a[i]) == lower(b[i])
}

fn lowered(c: char) -> (n: u32)
    ensures
        n == lower(c),
{
    if 'A' <= c && c <= 'Z' {
        c as u32 + 32
    } else {
        c as u32
    }
}

/// Are two words the same but for upper and lower case?
pub fn words_match(a: &str, b: &str) -> (r: bool)
    ensures
        r == same_word(a@, b@),
{
    let n: usize = a.unicode_len();
    if n != b.unicode_len() {
        return false;
    }
    let mut i: usize = 0;
    while i < n
        invariant
            i <= n,
            n == a@.len(),
            n == b@.len(),
            forall|j: int| 0 <= j < i ==> lower(#[trigger] a@[j]) == lower(b@[j]),
        decreases n - i,
    {
        if lowered(a.get_char(i)) != lowered(b.get_char(i)) {
            assert(lower(a@[i as int]) != lower(b@[i as int]));
            return false;
        }
        i += 1;
    }
    true
}

// ------------------------------------------------------------------ the laws

/// The number that digits say.
pub open spec fn reads(s: Seq<char>) -> int
    decreases s.len(),
{
    if s.len() == 0 {
        0
    } else {
        10 * reads(s.drop_last()) + (s.last() as int - '0' as int)
    }
}

/// A number in decimal reads back as itself, in digits, with no nought in
/// front.
pub proof fn law_decimals_read_back(n: nat)
    ensures
        reads(digits(n)) == n,
        digits(n).len() > 0,
        forall|i: int| 0 <= i < digits(n).len() ==> '0' <= #[trigger] digits(n)[i] <= '9',
        n > 0 ==> digits(n)[0] != '0',
    decreases n,
{
    let d = n % 10;
    assert(d < 10);
    assert(digit_char(d) as int == 48 + d);
    if n < 10 {
        let s = digits(n);
        assert(s.drop_last() =~= Seq::<char>::empty());
        assert(reads(s.drop_last()) == 0);
    } else {
        let rest = digits(n / 10);
        law_decimals_read_back(n / 10);
        let s = digits(n);
        assert(s.drop_last() =~= rest);
        assert(n == 10 * (n / 10) + d);
        assert(s[0] == rest[0]);
        assert forall|i: int| 0 <= i < s.len() implies '0' <= #[trigger] s[i] <= '9' by {
            if i < rest.len() {
                assert(s[i] == rest[i]);
            }
        }
    }
}

/// One more line goes on a line of its own.
pub proof fn law_each_line_has_its_own(parts: Seq<String>, line: String)
    ensures
        parts.len() == 0 ==> lines(parts.push(line)) == line@,
        parts.len() > 0 ==> lines(parts.push(line)) == lines(parts) + "\n"@ + line@,
        lines(Seq::<String>::empty()).len() == 0,
{
    assert(parts.push(line).drop_last() =~= parts);
}

/// Two words match when each letter does, or is the other's capital.
pub proof fn law_words_match_letter_by_letter(a: Seq<char>, b: Seq<char>)
    ensures
        same_word(a, b) <==> a.len() == b.len() && forall|i: int|
            0 <= i < a.len() ==> {
                let x = #[trigger] a[i] as int;
                let y = b[i] as int;
                x == y || (65 <= x <= 90 && y == x + 32) || (65 <= y <= 90 && x == y + 32)
            },
        same_word(a, b) == same_word(b, a),
{
    assert forall|x: char, y: char|
        #![trigger lower(x), lower(y)]
        lower(x) == lower(y) <==> (x as int == y as int || (65 <= x as int <= 90 && y as int
            == x as int + 32) || (65 <= y as int <= 90 && x as int == y as int + 32)) by {}
    if same_word(a, b) {
        assert forall|i: int| 0 <= i < a.len() implies {
            let x = #[trigger] a[i] as int;
            let y = b[i] as int;
            x == y || (65 <= x <= 90 && y == x + 32) || (65 <= y <= 90 && x == y + 32)
        } by {
            assert(lower(a[i]) == lower(b[i]));
        }
        assert forall|i: int| 0 <= i < b.len() implies lower(#[trigger] b[i]) == lower(a[i]) by {
            assert(lower(a[i]) == lower(b[i]));
        }
    }
    if same_word(b, a) {
        assert forall|i: int| 0 <= i < a.len() implies lower(#[trigger] a[i]) == lower(b[i]) by {
            assert(lower(b[i]) == lower(a[i]));
        }
    }
    if a.len() == b.len() && forall|i: int|
        0 <= i < a.len() ==> {
            let x = #[trigger] a[i] as int;
            let y = b[i] as int;
            x == y || (65 <= x <= 90 && y == x + 32) || (65 <= y <= 90 && x == y + 32)
        } {
        assert forall|i: int| 0 <= i < a.len() implies lower(#[trigger] a[i]) == lower(b[i]) by {
            let x = a[i] as int;
        }
    }
}

} // verus!
