//! The one-pass template parser: it renders while it scans, with no
//! intermediate token list.

use crate::template::{
    find_at, find_two, lemma_find_at_bounds, render_stream, trim, well_rendered, StrMap,
};
use vstd::prelude::*;
use vstd::string::*;

verus! {

/// Render the template against the data in a single scan.  The template
/// must render cleanly: every `{{` closed, every key bound — on other
/// input the original rendering aborts, so it is ruled out here.
pub fn parse(template: String, data: StrMap) -> (r: String)
    requires
        render_stream(template@, 0, data@) is Ok,
    ensures
        r@ == render_stream(template@, 0, data@)->Ok_0,
{
    let ghost t0 = template@;
    let ghost m = data@;
    let len = template.as_str().unicode_len();
    let mut result = String::new();
    let mut cur_idx: usize = 0;
    loop
        invariant_except_break
            render_stream(t0, cur_idx as int, m) is Ok,
            render_stream(t0, 0, m) matches Ok(v) && v == result@ + render_stream(
                t0,
                cur_idx as int,
                m,
            )->Ok_0,
        invariant
            t0 == template@,
            m == data@,
            cur_idx <= len,
            len == t0.len(),
        ensures
            render_stream(t0, 0, m) matches Ok(v) && v == result@,
        decreases len - cur_idx,
    {
        match find_two(template.as_str(), cur_idx, '{', '{') {
            None => {
                result.append(template.as_str().substring_char(cur_idx, len));
                proof {
                    assert(render_stream(t0, 0, m)->Ok_0 =~= result@);
                }
                break;
            },
            Some(idx) => {
                proof {
                    lemma_find_at_bounds(t0, '{', '{', cur_idx as int);
                    lemma_find_at_bounds(t0, '}', '}', idx as int + 2);
                }
                result.append(template.as_str().substring_char(cur_idx, idx));

                // the pattern at `idx` has its closing delimiters and a
                // bound key, so this step cannot get stuck
                cur_idx = parse_pattern_at(&template, idx, &data, &mut result);
                proof {
                    match render_stream(t0, cur_idx as int, m) {
                        Ok(rest) => {
                            assert(render_stream(t0, 0, m)->Ok_0 =~= result@ + rest);
                        },
                        Err(_) => {},
                    }
                }
            },
        }
    }
    result
}

/// Render the template if it renders cleanly against the data; hand the
/// template's problem back as nothing where it does not.
pub fn try_parse(template: String, data: StrMap) -> (r: Option<String>)
    ensures
        match render_stream(template@, 0, data@) {
            Ok(v) => (r matches Some(out) && out@ == v),
            Err(_) => r is None,
        },
{
    if well_rendered(template.as_str(), &data) {
        Some(parse(template, data))
    } else {
        None
    }
}

/// Resolve the pattern whose `{{` stands at `at`: append the value its
/// trimmed key names, and hand back the position after the closing
/// braces.
fn parse_pattern_at(template: &String, at: usize, data: &StrMap, result: &mut String) -> (next:
    usize)
    requires
        at + 2 <= template@.len(),
        template@[at as int] == '{',
        template@[at as int + 1] == '{',
        find_at(template@, '}', '}', at as int + 2) is Some,
        match find_at(template@, '}', '}', at as int + 2) {
            Some(j) => data@.dom().contains(
                crate::template::trim_seq(template@.subrange(at as int + 2, j)),
            ),
            None => false,
        },
    ensures
        match find_at(template@, '}', '}', at as int + 2) {
            Some(j) => next == j + 2 && final(result)@ == old(result)@ + data@[
                crate::template::trim_seq(template@.subrange(at as int + 2, j))
            ],
            None => false,
        },
{
    proof {
        // the two `{` at `at` cannot open a `}}`, so the search from
        // `at` and the search past the braces agree
        assert(find_at(template@, '}', '}', at as int) == find_at(
            template@,
            '}',
            '}',
            at as int + 1,
        ));
        assert(find_at(template@, '}', '}', at as int + 1) == find_at(
            template@,
            '}',
            '}',
            at as int + 2,
        ));
        lemma_find_at_bounds(template@, '}', '}', at as int);
    }
    let len = template.as_str().unicode_len();
    let delim_end = match find_two(template.as_str(), at, '}', '}') {
        Some(j) => j,
        None => {
            // ruled out by the caller: the closing delimiters exist
            return len;
        },
    };
    let key = trim(template.as_str().substring_char(at + 2, delim_end));
    let val = match data.get(key) {
        Some(v) => v,
        None => {
            // ruled out by the caller: the key is bound
            return len;
        },
    };
    result.append(val.as_str());
    delim_end + 2
}

} // verus!
