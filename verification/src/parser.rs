//! Line-level comparison of two serialized presentations.
//!
//! Both documents are compared in their JSON rendering: equal texts are
//! identical; otherwise each differing line position reports the original
//! line with `-` and the recreated line with `+`.
use vstd::prelude::*;
use crate::text::{chars_eq, chars_of, push_all, push_str, split_char, split_chars, string_of, vec_views};

verus! {

/// A line without the `\r` of a `\r\n` ending.
pub open spec fn strip_cr(p: Seq<char>) -> Seq<char> {
    if p.len() > 0 && p.last() == '\r' {
        p.drop_last()
    } else {
        p
    }
}

/// The lines of a text as std `str::lines` yields them: the pieces between
/// `\n`, each piece that a `\n` ends without a final `\r`, and no final
/// empty piece.
pub open spec fn str_lines(s: Seq<char>) -> Seq<Seq<char>> {
    let parts = split_char(s, '\n');
    parts.drop_last().map_values(|p: Seq<char>| strip_cr(p)) + if parts.last().len() > 0 {
        seq![parts.last()]
    } else {
        Seq::<Seq<char>>::empty()
    }
}

/// Line `i`, or the empty text past the end.
pub open spec fn line_or_empty(lines: Seq<Seq<char>>, i: int) -> Seq<char> {
    if 0 <= i < lines.len() {
        lines[i]
    } else {
        Seq::empty()
    }
}

/// The report for line position `i`: `-original` and `+recreated`, each
/// on its own line and only when non-empty, where the two lines differ.
pub open spec fn line_report(a: Seq<Seq<char>>, b: Seq<Seq<char>>, i: int) -> Seq<char> {
    let x = line_or_empty(a, i);
    let y = line_or_empty(b, i);
    if x != y {
        (if x.len() > 0 {
            "-"@ + x + "\n"@
        } else {
            Seq::empty()
        }) + (if y.len() > 0 {
            "+"@ + y + "\n"@
        } else {
            Seq::empty()
        })
    } else {
        Seq::empty()
    }
}

/// The reports of the first `n` line positions.
pub open spec fn line_diff(a: Seq<Seq<char>>, b: Seq<Seq<char>>, n: int) -> Seq<char>
    decreases n,
{
    if n <= 0 {
        Seq::empty()
    } else {
        line_diff(a, b, n - 1) + line_report(a, b, n - 1)
    }
}

/// The comparison message of two serialized presentations.
pub open spec fn presentation_comparison(original: Seq<char>, recreated: Seq<char>) -> Seq<char> {
    if original == recreated {
        "Presentations are identical"@
    } else {
        let a = str_lines(original);
        let b = str_lines(recreated);
        let n = if a.len() >= b.len() {
            a.len()
        } else {
            b.len()
        };
        let d = line_diff(a, b, n as int);
        if d.len() == 0 {
            "Presentations are identical"@
        } else {
            "Presentations differ:\n"@ + d
        }
    }
}

fn lines_of(s: &str) -> (r: Vec<Vec<char>>)
    ensures
        vec_views(r@) == str_lines(s@),
{
    let chars = chars_of(s);
    let parts = split_chars(chars.as_slice(), '\n');
    let ghost pv = split_char(s@, '\n');
    proof {
        assert(vec_views(parts@) =~= pv);
        crate::text::lemma_split_char_nonempty(s@, '\n');
    }
    let last = parts.len() - 1;
    let mut r: Vec<Vec<char>> = Vec::new();
    let mut i: usize = 0;
    while i < last
        invariant
            i <= last,
            last + 1 == parts.len(),
            vec_views(parts@) == pv,
            vec_views(r@) == pv.drop_last().map_values(|p: Seq<char>| strip_cr(p)).take(i as int),
        decreases last - i,
    {
        let p = &parts[i];
        let ghost before = r@;
        let mut line: Vec<char> = Vec::new();
        let keep = if p.len() > 0 && p[p.len() - 1] == '\r' {
            p.len() - 1
        } else {
            p.len()
        };
        let mut k: usize = 0;
        while k < keep
            invariant
                k <= keep <= p.len(),
                line@ == p@.take(k as int),
            decreases keep - k,
        {
            line.push(p[k]);
            k += 1;
            proof {
                assert(line@ =~= p@.take(k as int));
            }
        }
        proof {
            assert(vec_views(parts@)[i as int] == p@);
            assert(line@ =~= strip_cr(p@));
        }
        r.push(line);
        proof {
            assert(vec_views(r@) =~= vec_views(before).push(strip_cr(pv[i as int])));
            assert(pv.drop_last().map_values(|p: Seq<char>| strip_cr(p)).take(i + 1)
                =~= pv.drop_last().map_values(|p: Seq<char>| strip_cr(p)).take(i as int).push(
                strip_cr(pv[i as int]),
            ));
        }
        i += 1;
    }
    proof {
        assert(pv.drop_last().map_values(|p: Seq<char>| strip_cr(p)).take(i as int)
            =~= pv.drop_last().map_values(|p: Seq<char>| strip_cr(p)));
        assert(vec_views(parts@)[last as int] == pv.last());
    }
    if parts[last].len() > 0 {
        let ghost before = r@;
        let mut tail: Vec<char> = Vec::new();
        push_all(&mut tail, parts[last].as_slice());
        r.push(tail);
        proof {
            assert(vec_views(r@) =~= vec_views(before).push(pv.last()));
        }
    } else {
        proof {
            assert(pv.drop_last().map_values(|p: Seq<char>| strip_cr(p)) + Seq::<Seq<char>>::empty()
                =~= pv.drop_last().map_values(|p: Seq<char>| strip_cr(p)));
        }
    }
    r
}

/// Compares two serialized presentations line by line.
pub fn compare_presentations(original_json: &str, recreated_json: &str) -> (r: String)
    ensures
        r@ == presentation_comparison(original_json@, recreated_json@),
{
    let oc = chars_of(original_json);
    let rc = chars_of(recreated_json);
    if chars_eq(oc.as_slice(), rc.as_slice()) {
        return "Presentations are identical".to_string();
    }
    let a = lines_of(original_json);
    let b = lines_of(recreated_json);
    let ghost av = vec_views(a@);
    let ghost bv = vec_views(b@);
    let n = if a.len() >= b.len() {
        a.len()
    } else {
        b.len()
    };
    let empty: Vec<char> = Vec::new();
    let mut diff: Vec<char> = Vec::new();
    let mut i: usize = 0;
    while i < n
        invariant
            i <= n,
            n == if a.len() >= b.len() {
                a.len()
            } else {
                b.len()
            },
            av == vec_views(a@),
            bv == vec_views(b@),
            empty@ == Seq::<char>::empty(),
            diff@ == line_diff(av, bv, i as int),
        decreases n - i,
    {
        let x: &Vec<char> = if i < a.len() {
            &a[i]
        } else {
            &empty
        };
        let y: &Vec<char> = if i < b.len() {
            &b[i]
        } else {
            &empty
        };
        proof {
            assert(x@ == line_or_empty(av, i as int));
            assert(y@ == line_or_empty(bv, i as int));
        }
        let ghost before = diff@;
        if !chars_eq(x.as_slice(), y.as_slice()) {
            if x.len() > 0 {
                push_str(&mut diff, "-");
                push_all(&mut diff, x.as_slice());
                push_str(&mut diff, "\n");
            }
            let ghost mid = diff@;
            if y.len() > 0 {
                push_str(&mut diff, "+");
                push_all(&mut diff, y.as_slice());
                push_str(&mut diff, "\n");
            }
            proof {
                assert(diff@ =~= before + line_report(av, bv, i as int));
            }
        } else {
            proof {
                assert(diff@ =~= before + line_report(av, bv, i as int));
            }
        }
        i += 1;
    }
    if diff.len() == 0 {
        "Presentations are identical".to_string()
    } else {
        let mut out = chars_of("Presentations differ:\n");
        push_all(&mut out, diff.as_slice());
        string_of(out.as_slice())
    }
}

} // verus!
