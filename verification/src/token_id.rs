use vstd::prelude::*;
use vstd::string::*;

verus! {

/// The separator between the channel identifier and the token number.
pub open spec fn separator() -> char {
    ':'
}

/// Whether `c` is one of the ASCII digits `0` to `9`.
pub open spec fn is_digit(c: char) -> bool {
    '0' <= c && c <= '9'
}

/// The character that stands for the digit `d`, for `d` below ten.
pub open spec fn digit_char(d: nat) -> char {
    (d + '0' as nat) as char
}

/// The digit that the character `c` stands for.
pub open spec fn digit_value(c: char) -> nat {
    (c as nat - '0' as nat) as nat
}

/// The decimal rendering of `n`, most significant digit first, without
/// leading zeros (zero itself is rendered as `0`).
pub open spec fn decimal(n: nat) -> Seq<char>
    decreases n,
{
    if n < 10 {
        seq![digit_char(n)]
    } else {
        decimal(n / 10).push(digit_char(n % 10))
    }
}

/// The number that a string of digits denotes, read in base ten.
pub open spec fn digits_value(s: Seq<char>) -> nat
    decreases s.len(),
{
    if s.len() == 0 {
        0
    } else {
        digits_value(s.drop_last()) * 10 + digit_value(s.last())
    }
}

/// Whether every character of `s` is a digit.
pub open spec fn all_digits(s: Seq<char>) -> bool {
    forall|i: int| 0 <= i < s.len() ==> is_digit(#[trigger] s[i])
}

/// Whether `s` holds no separator.
pub open spec fn has_no_separator(s: Seq<char>) -> bool {
    forall|i: int| 0 <= i < s.len() ==> #[trigger] s[i] != separator()
}

/// The digits of a number text once an optional leading `+` is taken off.
pub open spec fn unsigned_part(s: Seq<char>) -> Seq<char> {
    if s.len() > 0 && s[0] == '+' {
        s.skip(1)
    } else {
        s
    }
}

/// The token number that the text `s` denotes: an optional `+`, then at
/// least one digit, with a value that fits in 64 bits. Any other text denotes
/// no number.
pub open spec fn number_in(s: Seq<char>) -> Option<u64> {
    let digits = unsigned_part(s);
    if digits.len() > 0 && all_digits(digits) && digits_value(digits) <= u64::MAX {
        Some(digits_value(digits) as u64)
    } else {
        None
    }
}

/// The identifier of token number `n` of the channel `channel`.
pub open spec fn token_id_of(channel: Seq<char>, n: nat) -> Seq<char> {
    channel + seq![separator()] + decimal(n)
}

/// The position of the first separator in `s`, or the length of `s` when it
/// holds none.
pub open spec fn separator_index(s: Seq<char>) -> int
    decreases s.len(),
{
    if s.len() == 0 || s[0] == separator() {
        0
    } else {
        1 + separator_index(s.drop_first())
    }
}

/// The channel identifier and the token number that the text `s` names.
///
/// A well-formed token identifier has exactly two parts around a single
/// separator: any text without a separator, then a number text. (A number
/// text never holds a separator, so the part behind the first separator
/// decides.) Any other text names no token.
pub open spec fn token_in(s: Seq<char>) -> Option<(Seq<char>, u64)> {
    let i = separator_index(s);
    if i < s.len() {
        match number_in(s.skip(i + 1)) {
            Some(n) => Some((s.take(i), n)),
            None => None,
        }
    } else {
        None
    }
}

/// What `separator_index` finds: no separator before it, and a separator at
/// it unless the text is exhausted.
pub proof fn lemma_separator_index(s: Seq<char>)
    ensures
        0 <= separator_index(s) <= s.len(),
        has_no_separator(s.take(separator_index(s))),
        separator_index(s) < s.len() ==> s[separator_index(s)] == separator(),
    decreases s.len(),
{
    if s.len() == 0 || s[0] == separator() {
    } else {
        let rest = s.drop_first();
        lemma_separator_index(rest);
        let i = separator_index(rest);
        assert forall|k: int| 0 <= k < i + 1 implies #[trigger] s.take(i + 1)[k] != separator() by {
            if k > 0 {
                assert(s.take(i + 1)[k] == rest.take(i)[k - 1]);
            }
        }
    }
}

/// The first separator of a text is where a separator stands that has none
/// before it.
pub proof fn lemma_separator_index_is(s: Seq<char>, i: int)
    requires
        0 <= i < s.len(),
        s[i] == separator(),
        forall|k: int| 0 <= k < i ==> s[k] != separator(),
    ensures
        separator_index(s) == i,
    decreases i,
{
    if i > 0 {
        lemma_separator_index_is(s.drop_first(), i - 1);
    }
}

/// A decimal rendering is a non-empty string of digits that denotes the
/// number rendered.
pub proof fn lemma_decimal(n: nat)
    ensures
        decimal(n).len() > 0,
        all_digits(decimal(n)),
        has_no_separator(decimal(n)),
        digits_value(decimal(n)) == n,
        unsigned_part(decimal(n)) == decimal(n),
    decreases n,
{
    if n < 10 {
        let s = seq![digit_char(n)];
        assert(s.drop_last() =~= Seq::<char>::empty());
        assert(digits_value(s.drop_last()) == 0);
    } else {
        lemma_decimal(n / 10);
        let s = decimal(n);
        assert(s.drop_last() =~= decimal(n / 10));
        assert(s[0] == decimal(n / 10)[0]);
    }
}

/// Rendering a token number and reading it back gives the number.
pub proof fn theorem_number_round_trip(n: u64)
    ensures
        number_in(decimal(n as nat)) == Some(n),
{
    lemma_decimal(n as nat);
}

/// A number text holds no separator.
pub proof fn lemma_number_text_has_no_separator(s: Seq<char>)
    requires
        number_in(s) is Some,
    ensures
        has_no_separator(s),
{
    let digits = unsigned_part(s);
    assert forall|i: int| 0 <= i < s.len() implies #[trigger] s[i] != separator() by {
        if s[0] == '+' {
            if i > 0 {
                assert(s[i] == digits[i - 1]);
            }
        } else {
            assert(s[i] == digits[i]);
        }
    }
}

/// A text that parses is the channel identifier found, a separator and a
/// number text, and the channel identifier found holds no separator.
pub proof fn theorem_parsed_shape(s: Seq<char>)
    requires
        token_in(s) is Some,
    ensures
        ({
            let (channel, n) = token_in(s)->0;
            let text = s.skip(channel.len() as int + 1);
            &&& s == channel + seq![separator()] + text
            &&& has_no_separator(channel)
            &&& has_no_separator(text)
            &&& number_in(text) == Some(n)
        }),
{
    lemma_separator_index(s);
    let i = separator_index(s);
    lemma_number_text_has_no_separator(s.skip(i + 1));
    assert(s =~= s.take(i) + seq![separator()] + s.skip(i + 1));
}

/// Two decompositions of one text around a separator, each with a second
/// part free of separators, are the same decomposition.
pub proof fn lemma_split_unique(a1: Seq<char>, b1: Seq<char>, a2: Seq<char>, b2: Seq<char>)
    requires
        a1 + seq![separator()] + b1 == a2 + seq![separator()] + b2,
        has_no_separator(b1),
        has_no_separator(b2),
    ensures
        a1 == a2,
        b1 == b2,
{
    let h1 = a1 + seq![separator()];
    let h2 = a2 + seq![separator()];
    let s1 = h1 + b1;
    let s2 = h2 + b2;
    assert(h1.len() == a1.len() + 1 && h2.len() == a2.len() + 1);
    assert(s1.len() == h1.len() + b1.len() && s2.len() == h2.len() + b2.len());
    assert(h1[a1.len() as int] == separator() && h2[a2.len() as int] == separator());
    if a1.len() < a2.len() {
        let k = a2.len() as int;
        assert(s2[k] == h2[k]);
        assert(s1[k] == b1[k - h1.len()]);
        assert(false);
    }
    if a2.len() < a1.len() {
        let k = a1.len() as int;
        assert(s1[k] == h1[k]);
        assert(s2[k] == b2[k - h2.len()]);
        assert(false);
    }
    assert(a1 =~= s1.take(a1.len() as int));
    assert(a2 =~= s2.take(a2.len() as int));
    assert(b1 =~= s1.skip(a1.len() as int + 1));
    assert(b2 =~= s2.skip(a2.len() as int + 1));
}

/// Distinct tokens have distinct identifiers: an identifier determines both
/// the channel and the number, whatever characters the channel identifier
/// holds.
pub proof fn theorem_token_id_injective(c1: Seq<char>, n1: nat, c2: Seq<char>, n2: nat)
    requires
        token_id_of(c1, n1) == token_id_of(c2, n2),
    ensures
        c1 == c2,
        n1 == n2,
{
    lemma_decimal(n1);
    lemma_decimal(n2);
    lemma_split_unique(c1, decimal(n1), c2, decimal(n2));
}

/// A well-formed identifier that is the identifier of token `n` of `channel`
/// parses to exactly that channel and number.
pub proof fn theorem_token_in_token_id(s: Seq<char>, channel: Seq<char>, n: u64)
    requires
        s == token_id_of(channel, n as nat),
        token_in(s) is Some,
    ensures
        token_in(s) == Some((channel, n)),
{
    theorem_parsed_shape(s);
    lemma_decimal(n as nat);
    let (c, m) = token_in(s)->0;
    lemma_split_unique(c, s.skip(c.len() as int + 1), channel, decimal(n as nat));
}

/// The identifier of a token parses back to its channel and number exactly
/// when the channel identifier holds no separator.
pub proof fn theorem_token_id_round_trip(channel: Seq<char>, n: u64)
    ensures
        has_no_separator(channel) ==> token_in(token_id_of(channel, n as nat)) == Some(
            (channel, n),
        ),
        !has_no_separator(channel) ==> token_in(token_id_of(channel, n as nat)) is None,
{
    let s = token_id_of(channel, n as nat);
    lemma_decimal(n as nat);
    if has_no_separator(channel) {
        assert forall|k: int| 0 <= k < channel.len() implies s[k] != separator() by {
            assert(s[k] == channel[k]);
        }
        lemma_separator_index_is(s, channel.len() as int);
        assert(s.skip(channel.len() as int + 1) =~= decimal(n as nat));
        assert(s.take(channel.len() as int) =~= channel);
    } else {
        if token_in(s) is Some {
            theorem_token_in_token_id(s, channel, n);
            theorem_parsed_shape(s);
        }
    }
}

/// A prefix of a string of digits denotes no more than the whole string.
pub proof fn lemma_digits_value_prefix(s: Seq<char>, k: int)
    requires
        0 <= k <= s.len(),
    ensures
        digits_value(s.take(k)) <= digits_value(s),
    decreases s.len(),
{
    if k == s.len() {
        assert(s.take(k) =~= s);
    } else {
        lemma_digits_value_prefix(s.drop_last(), k);
        assert(s.drop_last().take(k) =~= s.take(k));
    }
}

/// The characters of a string, in order.
pub fn chars_of(s: &str) -> (v: Vec<char>)
    ensures
        v@ == s@,
{
    broadcast use vstd::string::group_string_axioms;

    let mut v: Vec<char> = Vec::new();
    for c in it: s.chars()
        invariant
            it.seq() == s@,
            v@ == s@.take(it.index() as int),
    {
        v.push(c);
        assert(s@.take(it.index() + 1) =~= s@.take(it.index() as int).push(c));
    }
    assert(s@.take(s@.len() as int) =~= s@);
    v
}

/// Appends the decimal rendering of `n` to `out`.
pub fn push_decimal(out: &mut String, n: u64)
    ensures
        final(out)@ == old(out)@ + decimal(n as nat),
    decreases n,
{
    if n >= 10 {
        push_decimal(out, n / 10);
    }
    let d: usize = (n % 10) as usize;
    let digits = "0123456789";
    proof {
        reveal_strlit("0123456789");
    }
    let digit = digits.substring_ascii(d, d + 1);
    assert(digit@ =~= seq![digit_char((n % 10) as nat)]);
    out.append(digit);
    proof {
        if n >= 10 {
            assert(final(out)@ =~= old(out)@ + decimal((n / 10) as nat).push(
                digit_char((n % 10) as nat),
            ));
        }
    }
}

/// Renders the identifier of token number `n` of the channel `channel_id`:
/// the channel identifier, a colon, and the number in decimal.
pub fn token_id(channel_id: &str, n: u64) -> (id: String)
    ensures
        id@ == token_id_of(channel_id@, n as nat),
{
    let mut id = String::from_str(channel_id);
    proof {
        reveal_strlit(":");
    }
    id.append(":");
    assert(id@ =~= channel_id@ + seq![separator()]);
    push_decimal(&mut id, n);
    id
}

/// Reads the number text that starts at position `start` of `chars`.
pub fn parse_number(chars: &Vec<char>, start: usize) -> (r: Option<u64>)
    requires
        start <= chars.len(),
    ensures
        r == number_in(chars@.skip(start as int)),
{
    let ghost text = chars@.skip(start as int);
    let mut i: usize = start;
    if i < chars.len() && chars[i] == '+' {
        i += 1;
    }
    let begin: usize = i;
    assert(unsigned_part(text) =~= chars@.skip(begin as int));
    let ghost digits = chars@.skip(begin as int);
    if i == chars.len() {
        return None;
    }
    let mut value: u64 = 0;
    assert(digits.take(0) =~= Seq::<char>::empty());
    while i < chars.len()
        invariant
            start <= begin <= i <= chars.len(),
            digits == chars@.skip(begin as int),
            digits == unsigned_part(chars@.skip(start as int)),
            all_digits(digits.take(i - begin)),
            value == digits_value(digits.take(i - begin)),
        decreases chars.len() - i,
    {
        let c = chars[i];
        let ghost prefix = digits.take(i - begin + 1);
        assert(prefix.drop_last() =~= digits.take(i - begin));
        assert(prefix.last() == c);
        if !('0' <= c && c <= '9') {
            assert(digits[i - begin] == c);
            return None;
        }
        let d: u64 = (c as u32 - '0' as u32) as u64;
        assert(d == digit_value(c));
        if value > (u64::MAX - d) / 10 {
            proof {
                lemma_digits_value_prefix(digits, i - begin + 1);
            }
            return None;
        }
        value = value * 10 + d;
        i += 1;
        assert forall|k: int| 0 <= k < prefix.len() implies is_digit(#[trigger] prefix[k]) by {
            if k < prefix.len() - 1 {
                assert(prefix[k] == digits.take(i - begin - 1)[k]);
            }
        }
    }
    assert(digits.take(i - begin) =~= digits);
    Some(value)
}

/// Reads a token identifier: the channel identifier before its single
/// colon and the token number behind it. Returns `None` for any text that is
/// not of that shape.
pub fn parse_token_id(token_id: &str) -> (r: Option<(String, u64)>)
    ensures
        match r {
            Some((channel_id, n)) => token_in(token_id@) == Some((channel_id@, n)),
            None => token_in(token_id@) is None,
        },
{
    let chars = chars_of(token_id);
    let mut i: usize = 0;
    while i < chars.len() && chars[i] != ':'
        invariant
            i <= chars.len(),
            forall|k: int| 0 <= k < i ==> chars@[k] != separator(),
        decreases chars.len() - i,
    {
        i += 1;
    }
    proof {
        if i < chars.len() {
            lemma_separator_index_is(chars@, i as int);
        } else {
            lemma_separator_index(chars@);
        }
    }
    if i == chars.len() {
        return None;
    }
    match parse_number(&chars, i + 1) {
        None => None,
        Some(n) => {
            let channel = token_id.substring_char(0, i);
            assert(channel@ =~= token_id@.take(i as int));
            Some((String::from_str(channel), n))
        },
    }
}

} // verus!
