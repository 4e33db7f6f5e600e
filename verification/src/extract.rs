//! Extraction of report fragments from prompt and analysis text: the tagged
//! market-analysis section of a reply, and the last three data lines of a
//! prompt's historical-data section.

use vstd::prelude::*;
use vstd::string::{StrSliceExecFns, StringExecFns};
use crate::text::{find_from, trimmed};
use crate::parse::chars_vec;

verus! {

/// Index of the first `'\n'` in `s`, or `s.len()` when there is none.
pub open spec fn nl_index(s: Seq<char>) -> int
    decreases s.len(),
{
    if s.len() == 0 {
        0
    } else if s[0] == '\n' {
        0
    } else {
        1 + nl_index(s.drop_first())
    }
}

/// `nl_index` names the first newline: everything before it is not a
/// newline, and the index carries one unless it is the length.
pub proof fn lemma_nl_index(s: Seq<char>)
    ensures
        0 <= nl_index(s) <= s.len(),
        forall|i: int| 0 <= i < nl_index(s) ==> s[i] != '\n',
        nl_index(s) < s.len() ==> s[nl_index(s)] == '\n',
    decreases s.len(),
{
    if s.len() == 0 {
    } else if s[0] == '\n' {
    } else {
        lemma_nl_index(s.drop_first());
        assert(forall|i: int| 1 <= i < nl_index(s) ==> s[i] == s.drop_first()[i - 1]);
        if nl_index(s) < s.len() {
            assert(s[nl_index(s)] == s.drop_first()[nl_index(s) - 1]);
        }
    }
}

/// Lines of `s`: segments split at `'\n'`, a final line ending optional.
pub open spec fn lines_of(s: Seq<char>) -> Seq<Seq<char>>
    decreases s.len(),
    via lines_of_dec
{
    if s.len() == 0 {
        Seq::empty()
    } else {
        let k = nl_index(s);
        if k == s.len() {
            seq![s]
        } else {
            seq![s.take(k)] + lines_of(s.skip(k + 1))
        }
    }
}

#[via_fn]
proof fn lines_of_dec(s: Seq<char>) {
    lemma_nl_index(s);
}

/// A data line of the report: it quotes an opening price, a plain price,
/// or a closing price.
pub open spec fn line_matches(l: Seq<char>) -> bool {
    find_from(l, "O=$"@, 0) >= 0 || find_from(l, "Price=$"@, 0) >= 0 || find_from(l, ": C=$"@, 0)
        >= 0
}

/// The lines that are data lines, in order.
pub open spec fn matching_lines(ls: Seq<Seq<char>>) -> Seq<Seq<char>>
    decreases ls.len(),
{
    if ls.len() == 0 {
        Seq::empty()
    } else {
        let rest = matching_lines(ls.drop_last());
        if line_matches(ls.last()) {
            rest.push(ls.last())
        } else {
            rest
        }
    }
}

/// The last three entries (or all of a shorter list).
pub open spec fn last3(ls: Seq<Seq<char>>) -> Seq<Seq<char>> {
    if ls.len() <= 3 {
        ls
    } else {
        ls.skip(ls.len() - 3)
    }
}

/// The lines joined, each followed by a newline.
pub open spec fn join_lines(ls: Seq<Seq<char>>) -> Seq<char>
    decreases ls.len(),
{
    if ls.len() == 0 {
        Seq::empty()
    } else {
        join_lines(ls.drop_last()) + ls.last() + seq!['\n']
    }
}

/// What the market-analysis extraction returns: the trimmed text between
/// the analysis tags, or the whole reply when the tags are absent or
/// unclosed.
pub open spec fn spec_market_analysis(s: Seq<char>) -> Seq<char> {
    let a = find_from(s, "<bitcoin_market_analysis>"@, 0);
    if a >= 0 {
        let cstart = a + "<bitcoin_market_analysis>"@.len();
        let b = find_from(s.skip(cstart), "</bitcoin_market_analysis>"@, 0);
        if b >= 0 {
            trimmed(s.subrange(cstart, cstart + b))
        } else {
            s
        }
    } else {
        s
    }
}

/// The last three lines of the section starting after the first newline
/// past `mstart`, up to the next section marker: the fallback extraction
/// for prompts without a tagged historical-data section.
pub open spec fn spec_fallback_lines(p: Seq<char>, mstart: int) -> Seq<char>
    recommends
        0 <= mstart <= p.len(),
{
    let nl = find_from(p.skip(mstart), seq!['\n'], 0);
    if nl >= 0 {
        let section = p.skip(mstart + nl + 1);
        let de = find_from(section, "==="@, 0);
        let end = if de >= 0 {
            de
        } else {
            section.len() as int
        };
        join_lines(last3(lines_of(trimmed(section.take(end)))))
    } else {
        Seq::empty()
    }
}

/// What the last-three-data-points extraction returns: the data lines of
/// the tagged historical-data section, else of the legacy section
/// headers, else a fixed notice.
pub open spec fn spec_last3_data_points(p: Seq<char>) -> Seq<char> {
    let a = find_from(p, "<historical_data>"@, 0);
    let primary = if a >= 0 {
        let ds = a + "<historical_data>"@.len();
        let e = find_from(p.skip(ds), "</historical_data>"@, 0);
        if e >= 0 {
            join_lines(last3(matching_lines(lines_of(trimmed(p.skip(ds).take(e))))))
        } else {
            Seq::empty()
        }
    } else {
        Seq::empty()
    };
    let picked = if primary.len() > 0 {
        primary
    } else {
        let f1 = find_from(p, "Bitcoin historical OHLC + Volume data"@, 0);
        if f1 >= 0 {
            spec_fallback_lines(p, f1)
        } else {
            let f2 = find_from(p, "Bitcoin price data (timestamp, price in USD)"@, 0);
            if f2 >= 0 {
                spec_fallback_lines(p, f2)
            } else {
                Seq::empty()
            }
        }
    };
    if picked.len() > 0 {
        picked
    } else {
        "No data points found in the prompt."@
    }
}

/// Copy of a character range.
fn subvec(cs: &Vec<char>, a: usize, b: usize) -> (r: Vec<char>)
    requires
        a <= b <= cs@.len(),
    ensures
        r@ == cs@.subrange(a as int, b as int),
{
    let mut r: Vec<char> = Vec::new();
    let mut i = a;
    while i < b
        invariant
            a <= i <= b <= cs@.len(),
            r@ == cs@.subrange(a as int, i as int),
        decreases b - i,
    {
        r.push(cs[i]);
        proof {
            assert(r@ =~= cs@.subrange(a as int, i as int + 1));
        }
        i = i + 1;
    }
    r
}

/// Line boundaries of `cs`, as index pairs.
fn lines_ranges(cs: &Vec<char>) -> (r: Vec<(usize, usize)>)
    ensures
        r@.map_values(|p: (usize, usize)| cs@.subrange(p.0 as int, p.1 as int)) == lines_of(cs@),
        forall|i: int| 0 <= i < r@.len() ==> #[trigger] r@[i].0 <= r@[i].1 <= cs@.len(),
{
    let n = cs.len();
    let mut r: Vec<(usize, usize)> = Vec::new();
    let mut pos: usize = 0;
    proof {
        assert(r@.map_values(|p: (usize, usize)| cs@.subrange(p.0 as int, p.1 as int))
            =~= Seq::<Seq<char>>::empty());
        assert(cs@.skip(0) =~= cs@);
    }
    while pos < n
        invariant
            pos <= n,
            n == cs@.len(),
            forall|i: int| 0 <= i < r@.len() ==> #[trigger] r@[i].0 <= r@[i].1 <= cs@.len(),
            lines_of(cs@) == r@.map_values(|p: (usize, usize)| cs@.subrange(p.0 as int, p.1 as int))
                + lines_of(cs@.skip(pos as int)),
        decreases n - pos,
    {
        let ghost tail = cs@.skip(pos as int);
        // Scan for the next newline.
        let mut k = pos;
        while k < n && cs[k] != '\n'
            invariant
                pos <= k <= n,
                n == cs@.len(),
                forall|j: int| pos <= j < k ==> cs@[j] != '\n',
            decreases n - k,
        {
            k = k + 1;
        }
        proof {
            lemma_nl_index(tail);
            if k < n {
                assert(nl_index(tail) == k - pos) by {
                    assert(tail[k - pos] == '\n');
                    assert(forall|j: int| 0 <= j < k - pos ==> tail[j] != '\n');
                    if nl_index(tail) < k - pos {
                        assert(tail[nl_index(tail)] == '\n');
                    }
                }
            } else {
                assert(nl_index(tail) == tail.len()) by {
                    if nl_index(tail) < tail.len() {
                        assert(tail[nl_index(tail)] == '\n');
                        assert(cs@[nl_index(tail) + pos] == '\n');
                    }
                }
            }
        }
        let ghost prevmap = r@.map_values(
            |p: (usize, usize)| cs@.subrange(p.0 as int, p.1 as int),
        );
        r.push((pos, k));
        proof {
            assert(r@[r@.len() - 1].0 == pos && r@[r@.len() - 1].1 == k);
            assert(forall|i: int|
                0 <= i < r@.len() - 1 ==> #[trigger] r@[i].0 <= r@[i].1 <= cs@.len());
            let newmap = r@.map_values(|p: (usize, usize)| cs@.subrange(p.0 as int, p.1 as int));
            assert(newmap =~= prevmap.push(cs@.subrange(pos as int, k as int)));
            if k < n {
                assert(tail.take(k - pos) =~= cs@.subrange(pos as int, k as int));
                assert(tail.skip(k - pos + 1) =~= cs@.skip(k as int + 1));
                assert(lines_of(tail) == seq![cs@.subrange(pos as int, k as int)] + lines_of(
                    cs@.skip(k as int + 1),
                ));
                assert(prevmap + lines_of(tail) =~= newmap + lines_of(cs@.skip(k as int + 1)));
            } else {
                assert(tail =~= cs@.subrange(pos as int, k as int));
                assert(lines_of(tail) == seq![tail]);
                assert(cs@.skip(n as int) =~= Seq::<char>::empty());
                assert(prevmap + lines_of(tail) =~= newmap + lines_of(cs@.skip(n as int)));
            }
        }
        if k < n {
            pos = k + 1;
        } else {
            pos = n;
        }
    }
    proof {
        assert(cs@.skip(n as int) =~= Seq::<char>::empty());
        assert(lines_of(cs@) =~= r@.map_values(
            |p: (usize, usize)| cs@.subrange(p.0 as int, p.1 as int),
        ));
    }
    r
}

/// Join the last three of the given line ranges of `t`.
fn join_last3(t: &str, tc: &Vec<char>, kept: &Vec<(usize, usize)>) -> (r: String)
    requires
        tc@ == t@,
        forall|i: int| 0 <= i < kept@.len() ==> #[trigger] kept@[i].0 <= kept@[i].1 <= t@.len(),
    ensures
        r@ == join_lines(
            last3(
                kept@.map_values(|p: (usize, usize)| t@.subrange(p.0 as int, p.1 as int)),
            ),
        ),
{
    proof {
        reveal_strlit("\n");
    }
    let ghost all = kept@.map_values(|p: (usize, usize)| t@.subrange(p.0 as int, p.1 as int));
    let start: usize = if kept.len() > 3 {
        kept.len() - 3
    } else {
        0
    };
    proof {
        assert(last3(all) =~= all.skip(start as int));
    }
    let mut out = String::new();
    let mut i = start;
    proof {
        assert(out@ =~= join_lines(all.skip(start as int).take(0)));
    }
    while i < kept.len()
        invariant
            start <= i <= kept@.len(),
            tc@ == t@,
            all == kept@.map_values(|p: (usize, usize)| t@.subrange(p.0 as int, p.1 as int)),
            forall|j: int| 0 <= j < kept@.len() ==> #[trigger] kept@[j].0 <= kept@[j].1 <= t@.len(),
            start == if kept@.len() > 3 {
                kept@.len() - 3
            } else {
                0
            },
            out@ == join_lines(all.skip(start as int).take(i - start)),
        decreases kept@.len() - i,
    {
        let (a, b) = kept[i];
        let piece = t.substring_char(a, b);
        out.append(piece);
        out.append("\n");
        proof {
            reveal_strlit("\n");
            let q = all.skip(start as int);
            assert(q.take(i - start + 1).drop_last() =~= q.take(i - start));
            assert(q.take(i - start + 1).last() == all[i as int]);
            assert(all[i as int] == t@.subrange(kept@[i as int].0 as int, kept@[i as int].1 as int));
            assert(out@ =~= join_lines(q.take(i - start + 1)));
        }
        i = i + 1;
    }
    proof {
        assert(all.skip(start as int).take(kept@.len() - start) =~= all.skip(start as int));
    }
    out
}

/// Extract the market analysis from a model reply: the trimmed content of
/// the analysis tags, or the whole reply when the tags are absent or
/// unclosed.
pub fn extract_bitcoin_market_analysis(response: &str) -> (r: String)
    ensures
        r@ == spec_market_analysis(response@),
{
    let cs = chars_vec(response);
    let n = cs.len();
    let open_pat = chars_vec("<bitcoin_market_analysis>");
    match crate::text::find_chars(&cs, &open_pat) {
        Some(a) => {
            proof {
                crate::text::lemma_find_from(response@, "<bitcoin_market_analysis>"@, 0);
            }
            let cstart = a + open_pat.len();
            let tailv = subvec(&cs, cstart, n);
            let close_pat = chars_vec("</bitcoin_market_analysis>");
            match crate::text::find_chars(&tailv, &close_pat) {
                Some(b) => {
                    proof {
                        crate::text::lemma_find_from(
                            response@.skip(cstart as int),
                            "</bitcoin_market_analysis>"@,
                            0,
                        );
                        assert(response@.skip(cstart as int) =~= cs@.subrange(
                            cstart as int,
                            cs@.len() as int,
                        ));
                    }
                    let piece = response.substring_char(cstart, cstart + b);
                    let t = crate::text::trim_str(piece);
                    proof {
                        assert(piece@ =~= response@.subrange(cstart as int, cstart as int + b));
                    }
                    String::from_str(t)
                },
                None => String::from_str(response),
            }
        },
        None => String::from_str(response),
    }
}

} // verus!

verus! {

/// Trim a section, split it into lines, optionally keep only data lines,
/// and join the last three.
fn last3_section(section: &str, filter_data_lines: bool) -> (r: String)
    ensures
        r@ == join_lines(
            last3(
                if filter_data_lines {
                    matching_lines(lines_of(trimmed(section@)))
                } else {
                    lines_of(trimmed(section@))
                },
            ),
        ),
{
    let t = crate::text::trim_str(section);
    let tc = chars_vec(t);
    let ranges = lines_ranges(&tc);
    let ghost all_lines = ranges@.map_values(
        |p: (usize, usize)| tc@.subrange(p.0 as int, p.1 as int),
    );
    proof {
        assert(all_lines == lines_of(t@));
    }
    if filter_data_lines {
        let p1 = chars_vec("O=$");
        let p2 = chars_vec("Price=$");
        let p3 = chars_vec(": C=$");
        let mut kept: Vec<(usize, usize)> = Vec::new();
        let mut j: usize = 0;
        proof {
            assert(kept@.map_values(|p: (usize, usize)| tc@.subrange(p.0 as int, p.1 as int))
                =~= matching_lines(all_lines.take(0)));
        }
        while j < ranges.len()
            invariant
                j <= ranges@.len(),
                tc@ == t@,
                all_lines == ranges@.map_values(
                    |p: (usize, usize)| tc@.subrange(p.0 as int, p.1 as int),
                ),
                p1@ == "O=$"@,
                p2@ == "Price=$"@,
                p3@ == ": C=$"@,
                forall|i: int|
                    0 <= i < ranges@.len() ==> #[trigger] ranges@[i].0 <= ranges@[i].1
                        <= tc@.len(),
                forall|i: int|
                    0 <= i < kept@.len() ==> #[trigger] kept@[i].0 <= kept@[i].1 <= tc@.len(),
                kept@.map_values(|p: (usize, usize)| tc@.subrange(p.0 as int, p.1 as int))
                    == matching_lines(all_lines.take(j as int)),
            decreases ranges@.len() - j,
        {
            let (a, b) = ranges[j];
            let lv = subvec(&tc, a, b);
            let m1 = crate::text::find_chars(&lv, &p1);
            let m2 = crate::text::find_chars(&lv, &p2);
            let m3 = crate::text::find_chars(&lv, &p3);
            let is_data = m1.is_some() || m2.is_some() || m3.is_some();
            proof {
                assert(lv@ == all_lines[j as int]);
                assert(is_data == line_matches(all_lines[j as int]));
                assert(all_lines.take(j as int + 1).drop_last() =~= all_lines.take(j as int));
                assert(all_lines.take(j as int + 1).last() == all_lines[j as int]);
            }
            let ghost prev = kept@;
            if is_data {
                kept.push((a, b));
            }
            proof {
                if is_data {
                    assert(kept@.map_values(
                        |p: (usize, usize)| tc@.subrange(p.0 as int, p.1 as int),
                    ) =~= prev.map_values(
                        |p: (usize, usize)| tc@.subrange(p.0 as int, p.1 as int),
                    ).push(all_lines[j as int]));
                }
            }
            j = j + 1;
        }
        proof {
            assert(all_lines.take(ranges@.len() as int) =~= all_lines);
        }
        join_last3(t, &tc, &kept)
    } else {
        join_last3(t, &tc, &ranges)
    }
}

/// The last lines of the legacy section that starts after the first
/// newline past the marker at `mstart`.
fn fallback_lines(prompt: &str, cs: &Vec<char>, mstart: usize) -> (r: String)
    requires
        cs@ == prompt@,
        mstart <= prompt@.len(),
    ensures
        r@ == spec_fallback_lines(prompt@, mstart as int),
{
    proof {
        reveal_strlit("\n");
    }
    let n = cs.len();
    let tailv = subvec(cs, mstart, n);
    let nlp = chars_vec("\n");
    proof {
        assert(nlp@ =~= seq!['\n']);
        assert(tailv@ =~= prompt@.skip(mstart as int));
    }
    match crate::text::find_chars(&tailv, &nlp) {
        Some(nl) => {
            proof {
                crate::text::lemma_find_from(prompt@.skip(mstart as int), seq!['\n'], 0);
            }
            let sstart = mstart + nl + 1;
            let secv = subvec(cs, sstart, n);
            let ghost section = prompt@.skip(sstart as int);
            proof {
                assert(secv@ =~= section);
            }
            let marker = chars_vec("===");
            let end: usize = match crate::text::find_chars(&secv, &marker) {
                Some(de) => {
                    proof {
                        crate::text::lemma_find_from(section, "==="@, 0);
                    }
                    de
                },
                None => n - sstart,
            };
            let sec = prompt.substring_char(sstart, sstart + end);
            proof {
                assert(sec@ =~= section.take(end as int));
            }
            last3_section(sec, false)
        },
        None => String::new(),
    }
}

/// Extract the last three data lines of the prompt's historical-data
/// section: from the tagged section when present and closed, else from
/// the legacy section headers, else a fixed notice.
pub fn extract_last_3_data_points(prompt: &str) -> (r: String)
    ensures
        r@ == spec_last3_data_points(prompt@),
{
    let cs = chars_vec(prompt);
    let n = cs.len();
    let tag = chars_vec("<historical_data>");
    let mut primary = String::new();
    match crate::text::find_chars(&cs, &tag) {
        Some(a) => {
            proof {
                crate::text::lemma_find_from(prompt@, "<historical_data>"@, 0);
            }
            let ds = a + tag.len();
            let tailv = subvec(&cs, ds, n);
            let endtag = chars_vec("</historical_data>");
            proof {
                assert(tailv@ =~= prompt@.skip(ds as int));
            }
            match crate::text::find_chars(&tailv, &endtag) {
                Some(e) => {
                    proof {
                        crate::text::lemma_find_from(
                            prompt@.skip(ds as int),
                            "</historical_data>"@,
                            0,
                        );
                    }
                    let sec = prompt.substring_char(ds, ds + e);
                    proof {
                        assert(sec@ =~= prompt@.skip(ds as int).take(e as int));
                    }
                    primary = last3_section(sec, true);
                },
                None => {},
            }
        },
        None => {},
    }
    let picked: String = if primary.as_str().unicode_len() > 0 {
        primary
    } else {
        let fb1 = chars_vec("Bitcoin historical OHLC + Volume data");
        match crate::text::find_chars(&cs, &fb1) {
            Some(f1) => {
                proof {
                    crate::text::lemma_find_from(
                        prompt@,
                        "Bitcoin historical OHLC + Volume data"@,
                        0,
                    );
                }
                fallback_lines(prompt, &cs, f1)
            },
            None => {
                let fb2 = chars_vec("Bitcoin price data (timestamp, price in USD)");
                match crate::text::find_chars(&cs, &fb2) {
                    Some(f2) => {
                        proof {
                            crate::text::lemma_find_from(
                                prompt@,
                                "Bitcoin price data (timestamp, price in USD)"@,
                                0,
                            );
                        }
                        fallback_lines(prompt, &cs, f2)
                    },
                    None => String::new(),
                }
            },
        }
    };
    if picked.as_str().unicode_len() > 0 {
        picked
    } else {
        String::from_str("No data points found in the prompt.")
    }
}

/// What the composed analysis holds: the last three data points of the
/// prompt, then the extracted market analysis of the reply, under fixed
/// section headers.
pub open spec fn spec_composed_analysis(prompt: Seq<char>, reply: Seq<char>) -> Seq<char> {
    "=== LAST 3 DATA POINTS ===\n"@ + spec_last3_data_points(prompt) + "\n\n"@
        + "=== BITCOIN MARKET ANALYSIS ===\n"@ + spec_market_analysis(reply)
}

/// Combine a model reply with the prompt's last data points into the
/// final analysis text.
pub fn compose_analysis(prompt: &str, reply: &str) -> (r: String)
    ensures
        r@ == spec_composed_analysis(prompt@, reply@),
{
    let mut out = String::new();
    out.append("=== LAST 3 DATA POINTS ===\n");
    let last3txt = extract_last_3_data_points(prompt);
    out.append(last3txt.as_str());
    out.append("\n\n");
    out.append("=== BITCOIN MARKET ANALYSIS ===\n");
    let analysis = extract_bitcoin_market_analysis(reply);
    out.append(analysis.as_str());
    proof {
        assert(out@ =~= spec_composed_analysis(prompt@, reply@));
    }
    out
}

} // verus!
