use vstd::prelude::*;

verus! {

/// The text of one decimal digit; the empty text for anything above nine.
pub open spec fn digit_text(d: nat) -> Seq<char> {
    if d == 0 {
        "0"@
    } else if d == 1 {
        "1"@
    } else if d == 2 {
        "2"@
    } else if d == 3 {
        "3"@
    } else if d == 4 {
        "4"@
    } else if d == 5 {
        "5"@
    } else if d == 6 {
        "6"@
    } else if d == 7 {
        "7"@
    } else if d == 8 {
        "8"@
    } else if d == 9 {
        "9"@
    } else {
        Seq::empty()
    }
}

/// The decimal numeral of `n`, most significant digit first, without leading zeros.
pub open spec fn decimal(n: nat) -> Seq<char>
    decreases n,
{
    if n < 10 {
        digit_text(n)
    } else {
        decimal(n / 10) + digit_text(n % 10)
    }
}

fn digit_str(d: usize) -> (s: &'static str)
    requires
        d < 10,
    ensures
        s@ == digit_text(d as nat),
{
    if d == 0 {
        "0"
    } else if d == 1 {
        "1"
    } else if d == 2 {
        "2"
    } else if d == 3 {
        "3"
    } else if d == 4 {
        "4"
    } else if d == 5 {
        "5"
    } else if d == 6 {
        "6"
    } else if d == 7 {
        "7"
    } else if d == 8 {
        "8"
    } else {
        "9"
    }
}

/// Appends the decimal numeral of `n` to `out`.
pub fn push_decimal(out: &mut String, n: usize)
    ensures
        final(out)@ == old(out)@ + decimal(n as nat),
    decreases n,
{
    if n >= 10 {
        push_decimal(out, n / 10);
    }
    out.append(digit_str(n % 10));
    assert(out@ =~= old(out)@ + decimal(n as nat));
}

/// Whether `name` is one of `names`.
pub open spec fn names_contain(names: Seq<Seq<char>>, name: Seq<char>) -> bool {
    exists|i: int| 0 <= i < names.len() && #[trigger] names[i] == name
}

/// The texts of a list of strings.
pub open spec fn texts(names: Seq<String>) -> Seq<Seq<char>> {
    Seq::new(names.len(), |i: int| names[i]@)
}

/// Tells whether `name` occurs in `names`.
pub fn contains_name(names: &Vec<String>, name: &String) -> (found: bool)
    ensures
        found == names_contain(texts(names@), name@),
{
    let mut i: usize = 0;
    while i < names.len()
        invariant
            i <= names.len(),
            forall|j: int| 0 <= j < i ==> #[trigger] texts(names@)[j] != name@,
        decreases names.len() - i,
    {
        if names[i] == *name {
            assert(texts(names@)[i as int] == name@);
            return true;
        }
        i += 1;
    }
    false
}

/// Whether `i` is where the first space of `s` stands.
pub open spec fn first_space(s: Seq<char>, i: int) -> bool {
    &&& 0 <= i < s.len()
    &&& s[i] == ' '
    &&& forall|j: int| 0 <= j < i ==> #[trigger] s[j] != ' '
}

/// Whether `s` holds a space.
pub open spec fn has_space(s: Seq<char>) -> bool {
    exists|i: int| first_space(s, i)
}

/// What stands before the first space of `s`: all of `s` where it has none.
pub open spec fn until_space(s: Seq<char>) -> Seq<char> {
    if has_space(s) {
        s.subrange(0, choose|i: int| first_space(s, i))
    } else {
        s
    }
}

/// What stands behind the first space of `s`: nothing where it has none.
pub open spec fn after_space(s: Seq<char>) -> Seq<char> {
    if has_space(s) {
        s.subrange((choose|i: int| first_space(s, i)) + 1, s.len() as int)
    } else {
        Seq::empty()
    }
}

/// Finds the first space of `s`, counted in characters.
pub fn find_space(s: &str) -> (r: Option<usize>)
    ensures
        match r {
            Some(i) => first_space(s@, i as int),
            None => !has_space(s@),
        },
{
    let n = s.unicode_len();
    let mut i: usize = 0;
    for c in it: s.chars()
        invariant
            i == it.index(),
            it.seq() == s@,
            n == s@.len(),
            forall|j: int| 0 <= j < i ==> #[trigger] s@[j] != ' ',
    {
        if c == ' ' {
            return Some(i);
        }
        i += 1;
    }
    assert forall|k: int| !first_space(s@, k) by {
        if 0 <= k < s@.len() {
            assert(s@[k] != ' ');
        }
    }
    None
}

/// Splits `s` at its first space into what stands before and what stands behind it.
pub fn split_at_space(s: &str) -> (r: Option<(&str, &str)>)
    ensures
        match r {
            Some((head, tail)) => has_space(s@) && head@ == until_space(s@) && tail@
                == after_space(s@),
            None => !has_space(s@),
        },
{
    match find_space(s) {
        Some(i) => {
            let n = s.unicode_len();
            let head = s.substring_char(0, i);
            let tail = s.substring_char(i + 1, n);
            assert(first_space(s@, i as int));
            let ghost chosen = choose|k: int| first_space(s@, k);
            assert(chosen == i) by {
                if chosen < i {
                    assert(s@[chosen] != ' ');
                }
                if i < chosen {
                    assert(s@[i as int] != ' ');
                }
            }
            Some((head, tail))
        },
        None => None,
    }
}

} // verus!
