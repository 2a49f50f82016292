//! The structured text payload of the persisted form: one object with a
//! single field holding an ordered list of strings, here serialized and
//! parsed by the library itself.
//!
//! Grammar (exact, no surrounding whitespace): the seventeen-character
//! prefix `{"instructions":[`, then zero or more double-quoted strings
//! separated by single commas, then `]}`. A quoted string runs to the
//! first following double quote, so the encoding is lossless exactly for
//! strings free of double quotes — which hex strings are.

use vstd::prelude::*;

verus! {

/// The opening characters of the payload, through the list bracket.
pub open spec fn payload_prefix() -> Seq<char> {
    "{\"instructions\":["@
}

/// A string wrapped in double quotes.
pub open spec fn quoted(s: Seq<char>) -> Seq<char> {
    seq!['"'] + s + seq!['"']
}

/// The quoted strings joined with single commas, no trailing comma.
pub open spec fn joined(ss: Seq<Seq<char>>) -> Seq<char>
    decreases ss.len(),
{
    if ss.len() == 0 {
        Seq::empty()
    } else if ss.len() == 1 {
        quoted(ss[0])
    } else {
        quoted(ss[0]) + seq![','] + joined(ss.subrange(1, ss.len() as int))
    }
}

/// The full payload text for an ordered list of strings.
pub open spec fn payload_of(ss: Seq<Seq<char>>) -> Seq<char> {
    payload_prefix() + joined(ss) + seq![']', '}']
}

/// No double quote occurs in the string.
pub open spec fn quote_free(s: Seq<char>) -> bool {
    forall|i: int| 0 <= i < s.len() ==> s[i] != '"'
}

/// No double quote occurs in any of the strings.
pub open spec fn all_quote_free(ss: Seq<Seq<char>>) -> bool {
    forall|j: int| 0 <= j < ss.len() ==> quote_free(#[trigger] ss[j])
}

/// Scanner position while reading the list between the brackets.
pub enum ScanState {
    /// Before an item: the next character must open a quote.
    AtItem,
    /// Inside an item: characters accumulate until the closing quote.
    InItem,
    /// After an item: only a comma (then another item) or the end may follow.
    AfterItem,
}

/// One-character-at-a-time scan of the text between `[` and `]`, for a
/// list of one or more quoted strings: `cur` is the item read so far,
/// `acc` the items already closed. Yields the items exactly when the
/// text is a well-formed, non-empty, comma-separated list.
pub open spec fn scan_items(
    s: Seq<char>,
    mode: ScanState,
    cur: Seq<char>,
    acc: Seq<Seq<char>>,
) -> Option<Seq<Seq<char>>>
    decreases s.len(),
{
    if s.len() == 0 {
        if mode is AfterItem {
            Some(acc)
        } else {
            None
        }
    } else {
        let c = s[0];
        let rest = s.subrange(1, s.len() as int);
        match mode {
            ScanState::AtItem => if c == '"' {
                scan_items(rest, ScanState::InItem, Seq::empty(), acc)
            } else {
                None
            },
            ScanState::InItem => if c == '"' {
                scan_items(rest, ScanState::AfterItem, Seq::empty(), acc.push(cur))
            } else {
                scan_items(rest, ScanState::InItem, cur.push(c), acc)
            },
            ScanState::AfterItem => if c == ',' {
                scan_items(rest, ScanState::AtItem, Seq::empty(), acc)
            } else {
                None
            },
        }
    }
}

/// The item under construction, as the exec scanner tracks it: the
/// characters from just after the opening quote up to the cursor.
pub open spec fn scan_cur(s: Seq<char>, mode: ScanState, start: int, i: int) -> Seq<char> {
    if mode is InItem {
        s.subrange(start, i)
    } else {
        Seq::empty()
    }
}

/// The items of a non-empty bracketed list, if it is well formed.
pub open spec fn parse_items(s: Seq<char>) -> Option<Seq<Seq<char>>> {
    scan_items(s, ScanState::AtItem, Seq::empty(), Seq::empty())
}

/// What parsing a candidate payload yields: the ordered strings when
/// the text fits the grammar exactly, nothing otherwise.
pub open spec fn parse_payload(s: Seq<char>) -> Option<Seq<Seq<char>>> {
    let n = s.len() as int;
    if n < 19 {
        None
    } else if s.subrange(0, 17) != payload_prefix() {
        None
    } else if s[n - 2] != ']' || s[n - 1] != '}' {
        None
    } else {
        let mid = s.subrange(17, n - 2);
        if mid.len() == 0 {
            Some(Seq::empty())
        } else {
            parse_items(mid)
        }
    }
}

/// Appending one more string extends the joined text with a comma (when
/// anything came before) and the quoted string.
pub proof fn lemma_joined_push(ss: Seq<Seq<char>>, x: Seq<char>)
    ensures
        joined(ss.push(x)) == if ss.len() == 0 {
            quoted(x)
        } else {
            joined(ss) + seq![','] + quoted(x)
        },
    decreases ss.len(),
{
    let whole = ss.push(x);
    if ss.len() == 0 {
        assert(whole.len() == 1 && whole[0] == x);
    } else {
        assert(whole.subrange(1, whole.len() as int) =~= ss.subrange(1, ss.len() as int).push(x));
        lemma_joined_push(ss.subrange(1, ss.len() as int), x);
        if ss.len() == 1 {
            assert(joined(whole) == quoted(ss[0]) + seq![','] + quoted(x));
            assert(joined(ss) == quoted(ss[0]));
        } else {
            assert(joined(whole) == quoted(ss[0]) + seq![','] + (joined(
                ss.subrange(1, ss.len() as int),
            ) + seq![','] + quoted(x)));
            assert(joined(ss) + seq![','] + quoted(x) == (quoted(ss[0]) + seq![','] + joined(
                ss.subrange(1, ss.len() as int),
            )) + seq![','] + quoted(x));
            assert(quoted(ss[0]) + seq![','] + (joined(ss.subrange(1, ss.len() as int)) + seq![',']
                + quoted(x)) =~= (quoted(ss[0]) + seq![','] + joined(
                ss.subrange(1, ss.len() as int),
            )) + seq![','] + quoted(x));
        }
    }
}

proof fn lemma_scan_in_item(x: Seq<char>, rest: Seq<char>, cur: Seq<char>, acc: Seq<Seq<char>>)
    requires
        quote_free(x),
    ensures
        scan_items(x + seq!['"'] + rest, ScanState::InItem, cur, acc) == scan_items(
            rest,
            ScanState::AfterItem,
            Seq::empty(),
            acc.push(cur + x),
        ),
    decreases x.len(),
{
    let s = x + seq!['"'] + rest;
    if x.len() == 0 {
        assert(s[0] == '"');
        assert(s.subrange(1, s.len() as int) =~= rest);
        assert(cur + x =~= cur);
    } else {
        assert(s[0] == x[0]);
        assert(x[0] != '"');
        let xt = x.subrange(1, x.len() as int);
        assert(s.subrange(1, s.len() as int) =~= xt + seq!['"'] + rest);
        lemma_scan_in_item(xt, rest, cur.push(x[0]), acc);
        assert(cur.push(x[0]) + xt =~= cur + x);
    }
}

proof fn lemma_scan_item(x: Seq<char>, rest: Seq<char>, acc: Seq<Seq<char>>)
    requires
        quote_free(x),
    ensures
        scan_items(quoted(x) + rest, ScanState::AtItem, Seq::empty(), acc) == scan_items(
            rest,
            ScanState::AfterItem,
            Seq::empty(),
            acc.push(x),
        ),
{
    let s = quoted(x) + rest;
    assert(s[0] == '"');
    assert(s.subrange(1, s.len() as int) =~= x + seq!['"'] + rest);
    lemma_scan_in_item(x, rest, Seq::empty(), acc);
    assert(Seq::empty() + x =~= x);
}

proof fn lemma_scan_joined(ss: Seq<Seq<char>>, acc: Seq<Seq<char>>)
    requires
        ss.len() >= 1,
        all_quote_free(ss),
    ensures
        scan_items(joined(ss), ScanState::AtItem, Seq::empty(), acc) == Some(acc + ss),
    decreases ss.len(),
{
    if ss.len() == 1 {
        lemma_scan_item(ss[0], Seq::empty(), acc);
        assert(quoted(ss[0]) + Seq::<char>::empty() =~= joined(ss));
        assert(acc.push(ss[0]) =~= acc + ss);
    } else {
        let tail = ss.subrange(1, ss.len() as int);
        let after = seq![','] + joined(tail);
        lemma_scan_item(ss[0], after, acc);
        assert(quoted(ss[0]) + after =~= joined(ss));
        assert(after[0] == ',');
        assert(after.subrange(1, after.len() as int) =~= joined(tail));
        assert(all_quote_free(tail));
        lemma_scan_joined(tail, acc.push(ss[0]));
        assert(acc.push(ss[0]) + tail =~= acc + ss);
    }
}

/// Parsing inverts serialization: the payload of any quote-free string
/// list parses back to exactly that list.
pub proof fn lemma_parse_payload_of(ss: Seq<Seq<char>>)
    requires
        all_quote_free(ss),
    ensures
        parse_payload(payload_of(ss)) == Some(ss),
{
    reveal_strlit("{\"instructions\":[");
    let s = payload_of(ss);
    let n = s.len() as int;
    let pre = payload_prefix();
    assert(pre.len() == 17);
    if ss.len() == 0 {
        assert(joined(ss) == Seq::<char>::empty());
        assert(n == 19);
        assert(s.subrange(0, 17) =~= pre);
        assert(s[17] == ']' && s[18] == '}');
        assert(s.subrange(17, 17).len() == 0);
    } else {
        assert(joined(ss).len() >= 2) by {
            if ss.len() == 1 {
                assert(joined(ss) == quoted(ss[0]));
            }
        }
        assert(n >= 19);
        assert(s.subrange(0, 17) =~= pre);
        assert(s[n - 2] == ']' && s[n - 1] == '}');
        let mid = s.subrange(17, n - 2);
        assert(mid =~= joined(ss));
        lemma_scan_joined(ss, Seq::empty());
        assert(Seq::<Seq<char>>::empty() + ss =~= ss);
    }
}

/// Serializes an ordered list of strings as the text payload.
pub fn encode_payload(items: &Vec<String>) -> (r: String)
    ensures
        r@ == payload_of(items.deep_view()),
{
    proof {
        reveal_strlit(",");
        reveal_strlit("\"");
        reveal_strlit("]}");
    }
    let mut out = String::from_str("{\"instructions\":[");
    let mut i: usize = 0;
    while i < items.len()
        invariant
            i <= items.len(),
            out@ == payload_prefix() + joined(items.deep_view().subrange(0, i as int)),
            ","@ == seq![','],
            "\""@ == seq!['"'],
            "]}"@ == seq![']', '}'],
        decreases items.len() - i,
    {
        if i > 0 {
            out.append(",");
        }
        out.append("\"");
        out.append(items[i].as_str());
        out.append("\"");
        proof {
            let before = items.deep_view().subrange(0, i as int);
            let x = items.deep_view()[i as int];
            lemma_joined_push(before, x);
            assert(items.deep_view().subrange(0, i + 1) =~= before.push(x));
            assert(out@ =~= payload_prefix() + joined(before.push(x)));
        }
        i += 1;
    }
    out.append("]}");
    proof {
        assert(items.deep_view().subrange(0, items.len() as int) =~= items.deep_view());
        assert(out@ =~= payload_of(items.deep_view()));
    }
    out
}

/// Parses a candidate text payload into its ordered strings; yields
/// nothing exactly when the text does not fit the grammar.
pub fn decode_payload(s: &str) -> (r: Option<Vec<String>>)
    ensures
        r matches Some(v) ==> parse_payload(s@) == Some(v.deep_view()),
        r is None ==> parse_payload(s@) is None,
{
    proof {
        reveal_strlit("{\"instructions\":[");
    }
    let n = s.unicode_len();
    if n < 19 {
        return None;
    }
    let pre = "{\"instructions\":[";
    let mut i: usize = 0;
    while i < 17
        invariant
            0 <= i <= 17,
            n == s@.len(),
            19 <= n,
            pre@ == payload_prefix(),
            pre@.len() == 17,
            forall|j: int| 0 <= j < i ==> s@[j] == pre@[j],
        decreases 17 - i,
    {
        if s.get_char(i) != pre.get_char(i) {
            proof {
                assert(s@.subrange(0, 17)[i as int] != payload_prefix()[i as int]);
            }
            return None;
        }
        i += 1;
    }
    proof {
        assert(s@.subrange(0, 17) =~= payload_prefix());
    }
    if s.get_char(n - 2) != ']' || s.get_char(n - 1) != '}' {
        return None;
    }
    let end = n - 2;
    let ghost mid = s@.subrange(17, end as int);
    if end == 17 {
        proof {
            assert(mid.len() == 0);
        }
        let empty_items: Vec<String> = Vec::new();
        proof {
            assert(empty_items.deep_view() =~= Seq::<Seq<char>>::empty());
        }
        return Some(empty_items);
    }
    let mut items: Vec<String> = Vec::new();
    proof {
        assert(items.deep_view() =~= Seq::<Seq<char>>::empty());
    }
    let mut mode = ScanState::AtItem;
    let mut start: usize = 17;
    let mut j: usize = 17;
    while j < end
        invariant
            17 <= j <= end,
            end == n - 2,
            n == s@.len(),
            19 <= n,
            17 < end,
            mid == s@.subrange(17, end as int),
            mode is InItem ==> 17 <= start <= j,
            !(mode is InItem) ==> start == 17,
            parse_items(mid) == scan_items(
                s@.subrange(j as int, end as int),
                mode,
                scan_cur(s@, mode, start as int, j as int),
                items.deep_view(),
            ),
        decreases end - j,
    {
        let c = s.get_char(j);
        proof {
            let seg = s@.subrange(j as int, end as int);
            assert(seg[0] == s@[j as int]);
            assert(seg.subrange(1, seg.len() as int) =~= s@.subrange(j as int + 1, end as int));
        }
        match mode {
            ScanState::AtItem => {
                if c == '"' {
                    mode = ScanState::InItem;
                    start = j + 1;
                    proof {
                        assert(scan_cur(s@, mode, start as int, j as int + 1) =~= Seq::<
                            char,
                        >::empty());
                    }
                } else {
                    return None;
                }
            },
            ScanState::InItem => {
                if c == '"' {
                    let item = s.substring_char(start, j).to_owned();
                    proof {
                        assert(item@ == scan_cur(s@, mode, start as int, j as int));
                    }
                    let ghost old_items = items.deep_view();
                    let ghost itemview = item@;
                    items.push(item);
                    proof {
                        assert(items.deep_view() =~= old_items.push(itemview));
                    }
                    mode = ScanState::AfterItem;
                    start = 17;
                } else {
                    proof {
                        assert(s@.subrange(start as int, j as int).push(s@[j as int]) =~= s
                            @.subrange(start as int, j as int + 1));
                    }
                }
            },
            ScanState::AfterItem => {
                if c == ',' {
                    mode = ScanState::AtItem;
                    start = 17;
                } else {
                    return None;
                }
            },
        }
        j += 1;
    }
    proof {
        assert(s@.subrange(end as int, end as int).len() == 0);
    }
    match mode {
        ScanState::AfterItem => Some(items),
        _ => None,
    }
}
} // verus!
