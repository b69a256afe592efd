//! Parsing and validation of textual MAC addresses.
//!
//! A textual MAC address is six groups of exactly two hexadecimal digits,
//! delimited by a configurable single-character separator (conventionally
//! `:`).  Parsing decodes the six groups into six octets, most significant
//! first.
use vstd::prelude::*;
use vstd::string::StrSliceExecFns;

verus! {

/// Reason a textual MAC address is rejected.
#[derive(Clone, Copy, Debug, PartialEq, Eq, Structural)]
pub enum ParseError {
    /// Splitting on the separator did not yield exactly six groups.
    WrongGroupCount,
    /// Some group is not exactly two hexadecimal digits.
    InvalidHexDigit,
}

/// A validated MAC address: six octets, most significant first.
#[derive(Clone, Copy)]
pub struct MacAddress {
    octets: [u8; 6],
}

/// Whether `c` is a hexadecimal digit (either case).
pub open spec fn is_hex_digit(c: char) -> bool {
    ('0' <= c && c <= '9') || ('a' <= c && c <= 'f') || ('A' <= c && c <= 'F')
}

/// Numeric value of a hexadecimal digit; meaningful only when
/// `is_hex_digit(c)` holds.
pub open spec fn hex_val(c: char) -> u8 {
    if '0' <= c && c <= '9' {
        (c as u8 - '0' as u8) as u8
    } else if 'a' <= c && c <= 'f' {
        (c as u8 - 'a' as u8 + 10) as u8
    } else {
        (c as u8 - 'A' as u8 + 10) as u8
    }
}

/// A well-formed group: exactly two hexadecimal digits.
pub open spec fn valid_group(g: Seq<char>) -> bool {
    g.len() == 2 && is_hex_digit(g[0]) && is_hex_digit(g[1])
}

/// The octet a well-formed group denotes.
pub open spec fn group_val(g: Seq<char>) -> u8 {
    (hex_val(g[0]) * 16 + hex_val(g[1])) as u8
}

/// The groups obtained by splitting `s` at every occurrence of `sep`,
/// exactly as `str::split` does: the result always holds at least one
/// (possibly empty) group, and splitting the empty string yields one empty
/// group.
pub open spec fn split_on(s: Seq<char>, sep: char) -> Seq<Seq<char>>
    decreases s.len(),
{
    if s.len() == 0 {
        seq![Seq::<char>::empty()]
    } else if s[0] == sep {
        seq![Seq::<char>::empty()] + split_on(s.subrange(1, s.len() as int), sep)
    } else {
        let rest = split_on(s.subrange(1, s.len() as int), sep);
        seq![seq![s[0]] + rest[0]] + rest.subrange(1, rest.len() as int)
    }
}

/// Number of occurrences of `sep` in `s`.
pub open spec fn sep_count(s: Seq<char>, sep: char) -> nat
    decreases s.len(),
{
    if s.len() == 0 {
        0
    } else {
        (if s[0] == sep {
            1nat
        } else {
            0nat
        }) + sep_count(s.subrange(1, s.len() as int), sep)
    }
}

/// What parsing a textual MAC address yields: the six decoded octets, or
/// the error the text deserves.  A wrong group count is reported in
/// preference to a malformed group.
pub open spec fn parse_spec(s: Seq<char>, sep: char) -> Result<Seq<u8>, ParseError> {
    let groups = split_on(s, sep);
    if groups.len() != 6 {
        Err(ParseError::WrongGroupCount)
    } else if exists|g: int| 0 <= g < 6 && !valid_group(groups[g]) {
        Err(ParseError::InvalidHexDigit)
    } else {
        Ok(Seq::new(6, |g: int| group_val(groups[g])))
    }
}

impl View for MacAddress {
    type V = Seq<u8>;

    closed spec fn view(&self) -> Seq<u8> {
        self.octets@
    }
}

impl MacAddress {
    /// A MAC address from six raw octets, most significant first.
    pub fn from_octets(octets: [u8; 6]) -> (m: MacAddress)
        ensures
            m@ == octets@,
    {
        MacAddress { octets }
    }

    /// The six octets, most significant first.
    pub fn octets(&self) -> (o: [u8; 6])
        ensures
            o@ == self@,
    {
        self.octets
    }
}

/// Splitting always yields at least one group.
proof fn lemma_split_len_positive(s: Seq<char>, sep: char)
    ensures
        split_on(s, sep).len() >= 1,
    decreases s.len(),
{
    if s.len() > 0 && s[0] != sep {
        lemma_split_len_positive(s.subrange(1, s.len() as int), sep);
    }
}

/// Splitting yields one group more than there are separators.
proof fn lemma_split_count(s: Seq<char>, sep: char)
    ensures
        split_on(s, sep).len() == sep_count(s, sep) + 1,
    decreases s.len(),
{
    if s.len() > 0 {
        lemma_split_count(s.subrange(1, s.len() as int), sep);
        if s[0] != sep {
            lemma_split_len_positive(s.subrange(1, s.len() as int), sep);
        }
    }
}

/// When `k` is the first position of `sep` in `s`, the first group is
/// everything before `k` and the remaining groups are those of everything
/// after `k`.
proof fn lemma_split_first_boundary(s: Seq<char>, sep: char, k: int)
    requires
        0 <= k < s.len(),
        s[k] == sep,
        forall|j: int| 0 <= j < k ==> s[j] != sep,
    ensures
        split_on(s, sep) == seq![s.subrange(0, k)] + split_on(
            s.subrange(k + 1, s.len() as int),
            sep,
        ),
    decreases k,
{
    let tail = s.subrange(1, s.len() as int);
    if k == 0 {
        assert(s.subrange(0, 0) =~= Seq::<char>::empty());
        assert(split_on(s, sep) =~= seq![s.subrange(0, 0)] + split_on(
            s.subrange(1, s.len() as int),
            sep,
        ));
    } else {
        assert(forall|j: int| 0 <= j < k - 1 ==> tail[j] != sep);
        lemma_split_first_boundary(tail, sep, k - 1);
        let rest = split_on(tail, sep);
        assert(tail.subrange(0, k - 1) =~= s.subrange(1, k));
        assert(rest[0] == s.subrange(1, k));
        assert(seq![s[0]] + s.subrange(1, k) =~= s.subrange(0, k));
        assert(tail.subrange(k, tail.len() as int) =~= s.subrange(k + 1, s.len() as int));
        assert(rest.subrange(1, rest.len() as int) =~= split_on(
            s.subrange(k + 1, s.len() as int),
            sep,
        ));
        assert(split_on(s, sep) =~= seq![s.subrange(0, k)] + split_on(
            s.subrange(k + 1, s.len() as int),
            sep,
        ));
    }
}

/// A string free of the separator is one single group.
proof fn lemma_split_no_sep(s: Seq<char>, sep: char)
    requires
        forall|j: int| 0 <= j < s.len() ==> s[j] != sep,
    ensures
        split_on(s, sep) == seq![s],
    decreases s.len(),
{
    if s.len() == 0 {
        assert(split_on(s, sep) =~~= seq![s]);
    } else {
        let tail = s.subrange(1, s.len() as int);
        lemma_split_no_sep(tail, sep);
        let rest = split_on(tail, sep);
        assert(seq![s[0]] + rest[0] =~= s);
        assert(rest.subrange(1, 1) =~= Seq::<Seq<char>>::empty());
        assert(split_on(s, sep) =~= seq![s]);
    }
}

/// The value of one hexadecimal digit, or `None` when `c` is none.
fn hex_digit_value(c: char) -> (r: Option<u8>)
    ensures
        r is Some <==> is_hex_digit(c),
        r is Some ==> r->0 == hex_val(c) && r->0 < 16,
{
    if '0' <= c && c <= '9' {
        Some(c as u8 - 48)
    } else if 'a' <= c && c <= 'f' {
        Some(c as u8 - 97 + 10)
    } else if 'A' <= c && c <= 'F' {
        Some(c as u8 - 65 + 10)
    } else {
        None
    }
}

impl MacAddress {
    /// Parses a textual MAC address: `raw` split on `sep` must yield six
    /// groups of exactly two hexadecimal digits (either case), which decode
    /// to the six octets.  Fails with `WrongGroupCount` whenever the group
    /// count is off, and with `InvalidHexDigit` whenever the count is right
    /// but some group is malformed.
    pub fn parse(raw: &str, sep: char) -> (r: Result<MacAddress, ParseError>)
        ensures
            (match r {
                Ok(m) => parse_spec(raw@, sep) == Ok::<Seq<u8>, ParseError>(m@),
                Err(e) => parse_spec(raw@, sep) == Err::<Seq<u8>, ParseError>(e),
            }),
    {
        let ghost s = raw@;
        let n = raw.unicode_len();

        // Count the separators: the group count is one more.
        let mut seps: usize = 0;
        let mut i: usize = 0;
        proof {
            assert(s.subrange(0, n as int) =~= s);
        }
        while i < n
            invariant
                raw@ == s,
                n == s.len(),
                i <= n,
                seps <= i,
                seps + sep_count(s.subrange(i as int, n as int), sep) == sep_count(s, sep),
            decreases n - i,
        {
            let c = raw.get_char(i);
            proof {
                let t = s.subrange(i as int, n as int);
                assert(t.subrange(1, t.len() as int) =~= s.subrange(i as int + 1, n as int));
            }
            if c == sep {
                seps = seps + 1;
            }
            i = i + 1;
        }
        proof {
            assert(s.subrange(n as int, n as int) =~= Seq::<char>::empty());
            lemma_split_count(s, sep);
        }
        let ghost groups = split_on(s, sep);
        if seps != 5 {
            return Err(ParseError::WrongGroupCount);
        }

        // Exactly six groups: walk them, decoding each.
        let mut octets: [u8; 6] = [0, 0, 0, 0, 0, 0];
        let mut g: usize = 0;
        let mut cursor: usize = 0;
        proof {
            assert(s.subrange(0, n as int) =~= s);
            assert(groups.subrange(0, 6) =~= groups);
        }
        while g < 6
            invariant
                raw@ == s,
                n == s.len(),
                groups == split_on(s, sep),
                groups.len() == 6,
                g <= 6,
                cursor <= n,
                g < 6 ==> split_on(s.subrange(cursor as int, n as int), sep) == groups.subrange(
                    g as int,
                    6,
                ),
                forall|k: int|
                    0 <= k < g ==> valid_group(#[trigger] groups[k]) && octets@[k] == group_val(
                        groups[k],
                    ),
            decreases 6 - g,
        {
            // The current group runs from `cursor` to the next separator or
            // the end of the string.
            let mut j: usize = cursor;
            while j < n && raw.get_char(j) != sep
                invariant
                    raw@ == s,
                    n == s.len(),
                    cursor <= j <= n,
                    forall|m: int| cursor <= m < j ==> s[m] != sep,
                decreases n - j,
            {
                j = j + 1;
            }
            let ghost t = s.subrange(cursor as int, n as int);
            proof {
                if j < n {
                    assert(s[j as int] == sep);
                    assert(t[j - cursor as int] == sep);
                    assert(forall|m: int| 0 <= m < j - cursor as int ==> t[m] != sep);
                    lemma_split_first_boundary(t, sep, j - cursor as int);
                    assert(t.subrange(0, j - cursor as int) =~= s.subrange(
                        cursor as int,
                        j as int,
                    ));
                    assert(t.subrange(j - cursor as int + 1, t.len() as int) =~= s.subrange(
                        j as int + 1,
                        n as int,
                    ));
                    lemma_split_len_positive(s.subrange(j as int + 1, n as int), sep);
                    assert(groups[g as int] == groups.subrange(g as int, 6)[0]);
                    assert(groups[g as int] == s.subrange(cursor as int, j as int));
                    // A seventh boundary cannot exist: there are only six
                    // groups in all.
                    assert(g < 5) by {
                        if g == 5 {
                            assert(groups.subrange(5, 6).len() == 1);
                        }
                    }
                    assert(groups.subrange(g as int, 6).subrange(
                        1,
                        6 - g as int,
                    ) =~= groups.subrange(g as int + 1, 6));
                    assert(groups.subrange(g as int, 6).len() == 6 - g);
                    assert(groups.subrange(g as int, 6) == seq![
                        s.subrange(cursor as int, j as int),
                    ] + split_on(s.subrange(j as int + 1, n as int), sep));
                    assert(split_on(s.subrange(j as int + 1, n as int), sep).len() == 5 - g);
                    assert(split_on(s.subrange(j as int + 1, n as int), sep) =~= groups.subrange(
                        g as int,
                        6,
                    ).subrange(1, 6 - g as int));
                } else {
                    assert(forall|m: int| 0 <= m < t.len() ==> t[m] != sep);
                    lemma_split_no_sep(t, sep);
                    assert(groups[g as int] == groups.subrange(g as int, 6)[0]);
                    assert(groups[g as int] == t);
                    assert(groups[g as int] == s.subrange(cursor as int, j as int));
                    // The last separator is behind us: this is the final
                    // group.
                    assert(g == 5) by {
                        if g < 5 {
                            assert(groups.subrange(g as int, 6).len() == 6 - g);
                        }
                    }
                }
            }
            // `groups[g]` is the characters `[cursor, j)`.
            if j - cursor != 2 {
                proof {
                    assert(!valid_group(groups[g as int]));
                }
                return Err(ParseError::InvalidHexDigit);
            }
            let c0 = raw.get_char(cursor);
            let c1 = raw.get_char(cursor + 1);
            proof {
                assert(groups[g as int][0] == c0);
                assert(groups[g as int][1] == c1);
            }
            let v0 = match hex_digit_value(c0) {
                Some(v) => v,
                None => {
                    proof {
                        assert(!valid_group(groups[g as int]));
                    }
                    return Err(ParseError::InvalidHexDigit);
                },
            };
            let v1 = match hex_digit_value(c1) {
                Some(v) => v,
                None => {
                    proof {
                        assert(!valid_group(groups[g as int]));
                    }
                    return Err(ParseError::InvalidHexDigit);
                },
            };
            octets[g] = v0 * 16 + v1;
            proof {
                assert(valid_group(groups[g as int]));
                assert(octets@[g as int] == group_val(groups[g as int]));
            }
            if j < n {
                cursor = j + 1;
            } else {
                cursor = j;
            }
            g = g + 1;
        }
        proof {
            assert(forall|k: int| 0 <= k < 6 ==> valid_group(#[trigger] groups[k]));
            assert(octets@ =~= Seq::new(6, |k: int| group_val(groups[k])));
        }
        Ok(MacAddress { octets })
    }
}

/// Two characters that spell the same in a MAC address: equal outright, or
/// the same hexadecimal digit written in different case.
pub open spec fn same_char_ignoring_hex_case(a: char, b: char) -> bool {
    a == b || (is_hex_digit(a) && is_hex_digit(b) && hex_val(a) == hex_val(b))
}

/// Two texts that spell the same MAC address character by character, up to
/// the case of hexadecimal digits.
pub open spec fn same_text_ignoring_hex_case(a: Seq<char>, b: Seq<char>) -> bool {
    &&& a.len() == b.len()
    &&& forall|i: int| 0 <= i < a.len() ==> same_char_ignoring_hex_case(a[i], b[i])
}

/// Group lists that agree pairwise up to hexadecimal case.
spec fn groups_related(x: Seq<Seq<char>>, y: Seq<Seq<char>>) -> bool {
    &&& x.len() == y.len()
    &&& forall|g: int| 0 <= g < x.len() ==> same_text_ignoring_hex_case(#[trigger] x[g], y[g])
}

/// Splitting respects the character relation: related texts that agree on
/// where the separator stands split into related groups.
proof fn lemma_split_respects_case(a: Seq<char>, b: Seq<char>, sep: char)
    requires
        same_text_ignoring_hex_case(a, b),
        forall|i: int| 0 <= i < a.len() ==> (a[i] == sep <==> b[i] == sep),
    ensures
        groups_related(split_on(a, sep), split_on(b, sep)),
    decreases a.len(),
{
    if a.len() == 0 {
        assert(same_text_ignoring_hex_case(Seq::<char>::empty(), Seq::<char>::empty()));
    } else {
        let ta = a.subrange(1, a.len() as int);
        let tb = b.subrange(1, b.len() as int);
        assert forall|i: int| 0 <= i < ta.len() implies same_char_ignoring_hex_case(
            ta[i],
            tb[i],
        ) && (ta[i] == sep <==> tb[i] == sep) by {
            assert(ta[i] == a[i + 1]);
            assert(tb[i] == b[i + 1]);
            assert(same_char_ignoring_hex_case(a[i + 1], b[i + 1]));
        }
        lemma_split_respects_case(ta, tb, sep);
        let ra = split_on(ta, sep);
        let rb = split_on(tb, sep);
        if a[0] == sep {
            assert(b[0] == sep);
            assert(same_text_ignoring_hex_case(Seq::<char>::empty(), Seq::<char>::empty()));
            let xa = seq![Seq::<char>::empty()] + ra;
            let xb = seq![Seq::<char>::empty()] + rb;
            assert forall|g: int| 0 <= g < xa.len() implies same_text_ignoring_hex_case(
                #[trigger] xa[g],
                xb[g],
            ) by {
                if g > 0 {
                    assert(same_text_ignoring_hex_case(ra[g - 1], rb[g - 1]));
                }
            }
        } else {
            assert(b[0] != sep) by {
                assert(same_char_ignoring_hex_case(a[0], b[0]));
                assert(a[0] == sep <==> b[0] == sep);
            }
            lemma_split_len_positive(ta, sep);
            lemma_split_len_positive(tb, sep);
            let fa = seq![a[0]] + ra[0];
            let fb = seq![b[0]] + rb[0];
            assert(same_text_ignoring_hex_case(ra[0], rb[0]));
            assert forall|i: int| 0 <= i < fa.len() implies same_char_ignoring_hex_case(
                fa[i],
                fb[i],
            ) by {
                if i == 0 {
                    assert(same_char_ignoring_hex_case(a[0], b[0]));
                } else {
                    assert(fa[i] == ra[0][i - 1]);
                    assert(fb[i] == rb[0][i - 1]);
                    assert(same_char_ignoring_hex_case(ra[0][i - 1], rb[0][i - 1]));
                }
            }
            assert(same_text_ignoring_hex_case(fa, fb));
            let xa = seq![fa] + ra.subrange(1, ra.len() as int);
            let xb = seq![fb] + rb.subrange(1, rb.len() as int);
            assert forall|g: int| 0 <= g < xa.len() implies same_text_ignoring_hex_case(
                #[trigger] xa[g],
                xb[g],
            ) by {
                if g > 0 {
                    assert(xa[g] == ra[g]);
                    assert(xb[g] == rb[g]);
                    assert(same_text_ignoring_hex_case(ra[g], rb[g]));
                }
            }
            assert(split_on(a, sep) == xa);
            assert(split_on(b, sep) == xb);
        }
    }
}

/// The character relation preserves what a group means: related groups are
/// well formed together and denote the same octet.
proof fn lemma_group_val_case(x: Seq<char>, y: Seq<char>)
    requires
        same_text_ignoring_hex_case(x, y),
    ensures
        valid_group(x) <==> valid_group(y),
        valid_group(x) ==> group_val(x) == group_val(y),
{
    if x.len() == 2 {
        assert(same_char_ignoring_hex_case(x[0], y[0]));
        assert(same_char_ignoring_hex_case(x[1], y[1]));
    }
}

/// Parsing is case-insensitive in the hexadecimal digits: two texts whose
/// characters agree up to hexadecimal case, and agree on where the
/// separator stands, parse to the very same outcome — the same six octets,
/// or the same error.
pub proof fn lemma_parse_hex_case_insensitive(a: Seq<char>, b: Seq<char>, sep: char)
    requires
        same_text_ignoring_hex_case(a, b),
        forall|i: int| 0 <= i < a.len() ==> (a[i] == sep <==> b[i] == sep),
    ensures
        parse_spec(a, sep) == parse_spec(b, sep),
{
    lemma_split_respects_case(a, b, sep);
    let ga = split_on(a, sep);
    let gb = split_on(b, sep);
    if ga.len() != 6 {
        assert(gb.len() != 6);
    } else {
        assert forall|g: int| 0 <= g < 6 implies (valid_group(#[trigger] ga[g]) <==> valid_group(
            gb[g],
        )) && (valid_group(ga[g]) ==> group_val(ga[g]) == group_val(gb[g])) by {
            assert(same_text_ignoring_hex_case(ga[g], gb[g]));
            lemma_group_val_case(ga[g], gb[g]);
        }
        if exists|g: int| 0 <= g < 6 && !valid_group(ga[g]) {
            let g0 = choose|g: int| 0 <= g < 6 && !valid_group(ga[g]);
            assert(!valid_group(gb[g0]));
            assert(exists|g: int| 0 <= g < 6 && !valid_group(gb[g]));
        } else {
            assert forall|g: int| 0 <= g < 6 implies valid_group(#[trigger] gb[g]) by {
                assert(valid_group(ga[g]));
            }
            assert(!(exists|g: int| 0 <= g < 6 && !valid_group(gb[g])));
            assert(Seq::new(6, |g: int| group_val(ga[g])) =~= Seq::new(
                6,
                |g: int| group_val(gb[g]),
            ));
            assert(parse_spec(a, sep) == Ok::<Seq<u8>, ParseError>(
                Seq::new(6, |g: int| group_val(ga[g])),
            ));
            assert(parse_spec(b, sep) == Ok::<Seq<u8>, ParseError>(
                Seq::new(6, |g: int| group_val(gb[g])),
            ));
        }
    }
}

} // verus!
