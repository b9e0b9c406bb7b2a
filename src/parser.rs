//! Question files: lines, records, and the merge of questions that share a
//! text.

use vstd::prelude::*;
use crate::question::{Question, strings_view};
use crate::text::{
    compare_text,
    text_lt,
    lemma_text_lt_irreflexive,
    lemma_text_lt_transitive,
    lemma_text_lt_total,
    chars_of,
    is_white_space,
    is_white_space_spec,
    normalized,
    remove_extra_whitespaces,
    string_from_chars,
    string_of,
};

verus! {

/// The number of characters of `s` before the first `c`.
pub open spec fn prefix_without(s: Seq<char>, c: char) -> nat
    decreases s.len(),
{
    if s.len() == 0 || s[0] == c {
        0
    } else {
        1 + prefix_without(s.drop_first(), c)
    }
}

proof fn lemma_prefix_without(s: Seq<char>, c: char, k: int)
    requires
        0 <= k <= s.len(),
        forall|i: int| 0 <= i < k ==> #[trigger] s[i] != c,
        k == s.len() || s[k] == c,
    ensures
        prefix_without(s, c) == k,
    decreases k,
{
    if k > 0 {
        lemma_prefix_without(s.drop_first(), c, k - 1);
    }
}

/// A line that a `\n` ended, without the `\r` of a `\r\n` ending.
pub open spec fn without_cr(line: Seq<char>) -> Seq<char> {
    if line.len() > 0 && line.last() == '\r' {
        line.drop_last()
    } else {
        line
    }
}

/// The lines of `s` as `str::lines` gives them: split at each `\n`, a `\r`
/// before the `\n` dropped, and no empty line after a final `\n`.
pub open spec fn lines_of(s: Seq<char>) -> Seq<Seq<char>>
    decreases s.len(),
{
    if s.len() == 0 {
        Seq::empty()
    } else {
        let k = prefix_without(s, '\n');
        if k >= s.len() {
            seq![s]
        } else {
            seq![without_cr(s.take(k as int))] + lines_of(s.skip(k + 1 as int))
        }
    }
}

/// The lines of a file's content.
pub fn get_lines_from_string(contents: &str) -> (r: Vec<String>)
    ensures
        crate::question::strings_view(r@) == lines_of(contents@),
{
    let cs = chars_of(contents);
    let n = cs.len();
    let mut r: Vec<String> = Vec::new();
    let mut start: usize = 0;
    let mut i: usize = 0;
    proof {
        assert(cs@.skip(0) =~= cs@);
        assert(crate::question::strings_view(r@) + lines_of(cs@) =~= lines_of(cs@));
    }
    while i < n
        invariant
            cs@ == contents@,
            n == cs@.len(),
            start <= i <= n,
            forall|j: int| start <= j < i ==> #[trigger] cs@[j] != '\n',
            crate::question::strings_view(r@) + lines_of(cs@.skip(start as int)) == lines_of(
                contents@,
            ),
        decreases n - i,
    {
        if cs[i] == '\n' {
            let ghost rest = cs@.skip(start as int);
            proof {
                assert forall|j: int| 0 <= j < i - start implies #[trigger] rest[j] != '\n' by {
                    assert(rest[j] == cs@[start + j]);
                }
                lemma_prefix_without(rest, '\n', i - start);
                assert(rest.skip(i - start + 1) =~= cs@.skip(i + 1));
                assert(rest.take(i - start) =~= cs@.subrange(start as int, i as int));
            }
            let end = if i > start && cs[i - 1] == '\r' {
                i - 1
            } else {
                i
            };
            let line = string_from_chars(&cs, start, end);
            let ghost prev = r@;
            r.push(line);
            proof {
                assert(crate::question::strings_view(r@) =~= crate::question::strings_view(
                    prev,
                ).push(line@));
                assert(line@ =~= without_cr(rest.take(i - start)));
                assert(seq![line@] + lines_of(cs@.skip(i + 1)) =~= lines_of(rest));
                assert(crate::question::strings_view(r@) + lines_of(cs@.skip(i + 1)) =~= (
                crate::question::strings_view(prev) + seq![line@]) + lines_of(cs@.skip(i + 1)));
            }
            start = i + 1;
        }
        i = i + 1;
    }
    if start < n {
        let ghost rest = cs@.skip(start as int);
        proof {
            assert forall|j: int| 0 <= j < n - start implies #[trigger] rest[j] != '\n' by {
                assert(rest[j] == cs@[start + j]);
            }
            lemma_prefix_without(rest, '\n', n - start);
            assert(rest =~= cs@.subrange(start as int, n as int));
        }
        let line = string_from_chars(&cs, start, n);
        let ghost prev = r@;
        r.push(line);
        proof {
            assert(crate::question::strings_view(r@) =~= crate::question::strings_view(prev).push(
                line@,
            ));
        }
    } else {
        proof {
            assert(cs@.skip(start as int).len() == 0);
            assert(crate::question::strings_view(r@) + lines_of(cs@.skip(start as int))
                =~= crate::question::strings_view(r@));
        }
    }
    r
}

/// A line that holds no record: empty, a comment, or blank.
pub open spec fn is_ignored_line(l: Seq<char>) -> bool {
    l.len() == 0 || l[0] == '#' || forall|i: int|
        0 <= i < l.len() ==> is_white_space_spec(#[trigger] l[i])
}

/// A line with exactly one `|`.
pub open spec fn has_one_delimiter(l: Seq<char>) -> bool {
    prefix_without(l, '|') < l.len() && !l.skip(prefix_without(l, '|') + 1 as int).contains('|')
}

/// The text before the first `|`.
pub open spec fn question_part(l: Seq<char>) -> Seq<char> {
    l.take(prefix_without(l, '|') as int)
}

/// The text after the first `|`.
pub open spec fn answer_part(l: Seq<char>) -> Seq<char> {
    l.skip(prefix_without(l, '|') + 1 as int)
}

/// The normalised question text and answer that a line holds, if it holds a
/// record.
pub open spec fn record_of(l: Seq<char>) -> Option<(Seq<char>, Seq<char>)> {
    if is_ignored_line(l) || !has_one_delimiter(l) {
        None
    } else {
        Some((normalized(question_part(l)), normalized(answer_part(l))))
    }
}

/// What one line of a question file holds.
#[derive(Debug)]
pub enum ParsedLine {
    /// An empty, comment or blank line.
    Ignored,
    /// A line without exactly one `|`.
    Malformed,
    Parsed(Question),
}

/// Reads one line of the file at `location`: a record `question | answer`
/// gives a question with that one answer.
pub fn parse_question_from_line(line: &str, location: &str) -> (r: ParsedLine)
    ensures
        r is Ignored <==> is_ignored_line(line@),
        r is Malformed <==> !is_ignored_line(line@) && !has_one_delimiter(line@),
        r is Parsed <==> record_of(line@) is Some,
        r matches ParsedLine::Parsed(q) ==> {
            &&& q.answer_seq().len() == 1
            &&& record_of(line@) == Some((q.question@, q.answer_seq()[0]))
            &&& q.location_seq() == seq![location@]
            &&& q.unscored()
            &&& q.wf()
        },
{
    let cs = chars_of(line);
    let n = cs.len();
    if n == 0 || cs[0] == '#' {
        return ParsedLine::Ignored;
    }
    let mut k: usize = 0;
    while k < n && is_white_space(cs[k])
        invariant
            cs@ == line@,
            n == cs@.len(),
            k <= n,
            forall|i: int| 0 <= i < k ==> is_white_space_spec(#[trigger] cs@[i]),
        decreases n - k,
    {
        k = k + 1;
    }
    if k == n {
        return ParsedLine::Ignored;
    }
    assert(!is_ignored_line(line@));
    let mut p: usize = 0;
    while p < n && cs[p] != '|'
        invariant
            cs@ == line@,
            n == cs@.len(),
            p <= n,
            forall|i: int| 0 <= i < p ==> #[trigger] cs@[i] != '|',
        decreases n - p,
    {
        p = p + 1;
    }
    proof {
        lemma_prefix_without(line@, '|', p as int);
    }
    if p == n {
        return ParsedLine::Malformed;
    }
    let mut e: usize = p + 1;
    while e < n
        invariant
            cs@ == line@,
            n == cs@.len(),
            p < e <= n,
            forall|i: int| p < i < e ==> #[trigger] cs@[i] != '|',
            !is_ignored_line(line@),
            prefix_without(line@, '|') == p,
        decreases n - e,
    {
        if cs[e] == '|' {
            assert(line@.skip(p + 1)[e - p - 1] == '|');
            return ParsedLine::Malformed;
        }
        e = e + 1;
    }
    proof {
        let rest = line@.skip(p + 1);
        assert forall|i: int| 0 <= i < rest.len() implies rest[i] != '|' by {
            assert(rest[i] == cs@[p + 1 + i]);
        }
    }
    let question_text = string_from_chars(&cs, 0, p);
    let answer_text = string_from_chars(&cs, p + 1, n);
    assert(question_text@ =~= question_part(line@));
    assert(answer_text@ =~= answer_part(line@));
    let question = remove_extra_whitespaces(question_text.as_str());
    let answer = remove_extra_whitespaces(answer_text.as_str());
    ParsedLine::Parsed(Question::new(string_of(location), question, answer))
}

/// The questions' texts ascend strictly, so that no text comes twice.
pub open spec fn texts_ascending(qs: Seq<Question>) -> bool {
    forall|i: int, j: int|
        0 <= i < j < qs.len() ==> text_lt(#[trigger] qs[i].question@, #[trigger] qs[j].question@)
}

/// Every question is well formed.
pub open spec fn all_wf(qs: Seq<Question>) -> bool {
    forall|i: int| 0 <= i < qs.len() ==> #[trigger] qs[i].wf()
}

/// Some question of `qs` has the text `t`.
pub open spec fn has_text(qs: Seq<Question>, t: Seq<char>) -> bool {
    exists|i: int| 0 <= i < qs.len() && #[trigger] qs[i].question@ == t
}

/// What merging `q` into the ascending list `acc` gives: where a question of
/// `acc` has the text of `q`, it takes the union of the answers and of the
/// locations and keeps its score; otherwise `q` goes in at the place that
/// keeps the texts ascending.
pub open spec fn merge_result(acc: Seq<Question>, q: Question, r: Seq<Question>) -> bool {
    if has_text(acc, q.question@) {
        let i = choose|i: int| 0 <= i < acc.len() && #[trigger] acc[i].question@ == q.question@;
        &&& r.len() == acc.len()
        &&& forall|j: int| 0 <= j < acc.len() && j != i ==> #[trigger] r[j] == acc[j]
        &&& r[i].question@ == acc[i].question@
        &&& r[i].answer_set() == acc[i].answer_set() + q.answer_set()
        &&& r[i].location_set() == acc[i].location_set() + q.location_set()
        &&& r[i].same_score(&acc[i])
        &&& r[i].wf()
    } else {
        exists|p: int| 0 <= p <= acc.len() && r == acc.insert(p, q)
    }
}

/// Appends to `target` each string of `extra` that it does not hold yet.
fn union_into(target: &mut Vec<String>, extra: &Vec<String>)
    requires
        strings_view(old(target)@).no_duplicates(),
    ensures
        strings_view(final(target)@).no_duplicates(),
        strings_view(final(target)@).to_set() == strings_view(old(target)@).to_set()
            + strings_view(extra@).to_set(),
{
    let ghost start = strings_view(target@).to_set();
    let mut i: usize = 0;
    while i < extra.len()
        invariant
            i <= extra@.len(),
            strings_view(target@).no_duplicates(),
            strings_view(target@).to_set() == start + strings_view(extra@).subrange(
                0,
                i as int,
            ).to_set(),
        decreases extra@.len() - i,
    {
        let mut found = false;
        let mut j: usize = 0;
        while j < target.len()
            invariant
                j <= target@.len(),
                i < extra@.len(),
                found ==> strings_view(target@).contains(extra@[i as int]@),
                !found ==> forall|k: int| 0 <= k < j ==> target@[k]@ != extra@[i as int]@,
            decreases target@.len() - j,
        {
            if target[j] == extra[i] {
                found = true;
                assert(strings_view(target@)[j as int] == extra@[i as int]@);
            }
            j = j + 1;
        }
        let ghost before = strings_view(target@);
        let ghost item = extra@[i as int]@;
        if !found {
            target.push(extra[i].clone());
            proof {
                assert(strings_view(target@) =~= before.push(item));
                assert(!before.contains(item));
            }
        }
        proof {
            let prefix = strings_view(extra@).subrange(0, i as int);
            assert(strings_view(extra@).subrange(0, i + 1) =~= prefix.push(item));
            prefix.lemma_push_to_set_commute(item);
            if !found {
                before.lemma_push_to_set_commute(item);
            } else {
                assert(before.to_set().contains(item));
            }
            assert(strings_view(target@).to_set() =~= start + prefix.push(item).to_set());
        }
        i = i + 1;
    }
    assert(strings_view(extra@).subrange(0, i as int) =~= strings_view(extra@));
}

/// Merges `new_question` into the questions gathered so far, which are kept
/// in ascending order of text: a question with the same text takes the
/// union of its answers and locations, any other goes in at its place.
pub fn merge_answers_from_matching_questions(questions: Vec<Question>, new_question: Question) -> (r: Vec<
    Question,
>)
    requires
        texts_ascending(questions@),
        all_wf(questions@),
        new_question.wf(),
    ensures
        merge_result(questions@, new_question, r@),
        texts_ascending(r@),
        all_wf(r@),
{
    let ghost orig = questions@;
    let mut acc = questions;
    let mut j: usize = 0;
    while j < acc.len()
        invariant
            acc@ == orig,
            orig == questions@,
            j <= acc@.len(),
            texts_ascending(acc@),
            all_wf(acc@),
            new_question.wf(),
            forall|k: int| 0 <= k < j ==> text_lt(#[trigger] acc@[k].question@, new_question.question@),
        decreases acc@.len() - j,
    {
        let c = compare_text(acc[j].question.as_str(), new_question.question.as_str());
        if c == 0 {
            let ghost a0 = acc@;
            proof {
                assert forall|k: int| 0 <= k < a0.len() && #[trigger] a0[k].question@ == new_question.question@
                    implies k == j by {
                    if k < j {
                        lemma_text_lt_irreflexive(new_question.question@);
                    } else if k > j {
                        assert(text_lt(a0[j as int].question@, a0[k].question@));
                        lemma_text_lt_irreflexive(new_question.question@);
                    }
                }
                assert(has_text(a0, new_question.question@));
            }
            assert(a0[j as int].wf());
            let mut merged = acc.remove(j);
            union_into(&mut merged.answers, &new_question.answers);
            union_into(&mut merged.locations, &new_question.locations);
            acc.insert(j, merged);
            proof {
                assert(acc@ =~= a0.update(j as int, merged));
                assert forall|x: int, y: int| 0 <= x < y < acc@.len() implies text_lt(
                    #[trigger] acc@[x].question@,
                    #[trigger] acc@[y].question@,
                ) by {
                    assert(text_lt(a0[x].question@, a0[y].question@));
                }
                let i = choose|i: int| 0 <= i < a0.len() && #[trigger] a0[i].question@ == new_question.question@;
                assert(i == j);
                assert(acc@[i].answer_set() == a0[i].answer_set() + new_question.answer_set());
                assert(acc@[i].location_set() == a0[i].location_set() + new_question.location_set());
                assert(acc@[i].same_score(&a0[i]));
                assert(acc@[i].wf());
                assert(merge_result(a0, new_question, acc@));
                assert(a0 == orig);
            }
            return acc;
        } else if c > 0 {
            let ghost a0 = acc@;
            proof {
                assert forall|k: int| 0 <= k < a0.len() implies #[trigger] a0[k].question@
                    != new_question.question@ by {
                    if k < j {
                        lemma_text_lt_irreflexive(new_question.question@);
                    } else {
                        if k > j {
                            lemma_text_lt_transitive(
                                new_question.question@,
                                a0[j as int].question@,
                                a0[k].question@,
                            );
                        }
                        lemma_text_lt_irreflexive(new_question.question@);
                    }
                }
            }
            acc.insert(j, new_question);
            proof {
                assert forall|x: int, y: int| 0 <= x < y < acc@.len() implies text_lt(
                    #[trigger] acc@[x].question@,
                    #[trigger] acc@[y].question@,
                ) by {
                    if y == j {
                        assert(text_lt(a0[x].question@, new_question.question@));
                    } else if x == j {
                        if y - 1 > j {
                            lemma_text_lt_transitive(
                                new_question.question@,
                                a0[j as int].question@,
                                a0[y - 1].question@,
                            );
                        }
                    } else if x < j && y > j {
                        assert(text_lt(a0[x].question@, a0[y - 1].question@));
                    } else if x > j {
                        assert(text_lt(a0[x - 1].question@, a0[y - 1].question@));
                    } else {
                        assert(text_lt(a0[x].question@, a0[y].question@));
                    }
                }
                assert(acc@ == a0.insert(j as int, new_question));
                assert(!has_text(a0, new_question.question@));
                assert(0 <= j <= a0.len() && acc@ == a0.insert(j as int, new_question));
                assert(merge_result(a0, new_question, acc@));
                assert(a0 == orig);
            }
            return acc;
        } else {
            proof {
                lemma_text_lt_total(acc@[j as int].question@, new_question.question@);
            }
        }
        j = j + 1;
    }
    let ghost a0 = acc@;
    proof {
        assert forall|k: int| 0 <= k < a0.len() implies #[trigger] a0[k].question@
            != new_question.question@ by {
            lemma_text_lt_irreflexive(new_question.question@);
        }
    }
    acc.push(new_question);
    proof {
        assert(acc@ =~= a0.insert(a0.len() as int, new_question));
        assert forall|x: int, y: int| 0 <= x < y < acc@.len() implies text_lt(
            #[trigger] acc@[x].question@,
            #[trigger] acc@[y].question@,
        ) by {
            if y == a0.len() {
                assert(text_lt(a0[x].question@, new_question.question@));
            } else {
                assert(text_lt(a0[x].question@, a0[y].question@));
            }
        }
    }
    acc
}

/// A file's path and its content.
#[derive(Debug)]
pub struct SourceFile {
    pub path: String,
    pub contents: String,
}

/// A record of a question file: question text, answer, and the path of the
/// file.
pub type Record = (Seq<char>, Seq<char>, Seq<char>);

/// The records that the lines hold, in order, each with `path`.
pub open spec fn records_of_lines(lines: Seq<Seq<char>>, path: Seq<char>) -> Seq<Record>
    decreases lines.len(),
{
    if lines.len() == 0 {
        Seq::empty()
    } else {
        let rest = records_of_lines(lines.drop_last(), path);
        match record_of(lines.last()) {
            Some(tr) => rest.push((tr.0, tr.1, path)),
            None => rest,
        }
    }
}

/// The records of the files, file by file and line by line.
pub open spec fn records_of_sources(sources: Seq<SourceFile>) -> Seq<Record>
    decreases sources.len(),
{
    if sources.len() == 0 {
        Seq::empty()
    } else {
        records_of_sources(sources.drop_last()) + records_of_lines(
            lines_of(sources.last().contents@),
            sources.last().path@,
        )
    }
}

/// The answers that the records give for the text `t`.
pub open spec fn answers_for(records: Seq<Record>, t: Seq<char>) -> Set<Seq<char>> {
    Set::new(
        |a: Seq<char>|
            exists|j: int| 0 <= j < records.len() && #[trigger] records[j].0 == t && records[j].1 == a,
    )
}

/// The paths of the records that hold the text `t`.
pub open spec fn locations_for(records: Seq<Record>, t: Seq<char>) -> Set<Seq<char>> {
    Set::new(
        |l: Seq<char>|
            exists|j: int| 0 <= j < records.len() && #[trigger] records[j].0 == t && records[j].2 == l,
    )
}

/// Some record holds the text `t`.
pub open spec fn has_record(records: Seq<Record>, t: Seq<char>) -> bool {
    exists|j: int| 0 <= j < records.len() && #[trigger] records[j].0 == t
}

/// `q` is the merge of the records with its text: their answers, their
/// paths, and no score yet.
pub open spec fn merged_entry(q: Question, records: Seq<Record>) -> bool {
    &&& q.wf()
    &&& q.unscored()
    &&& has_record(records, q.question@)
    &&& q.answer_set() == answers_for(records, q.question@)
    &&& q.location_set() == locations_for(records, q.question@)
}

/// `qs` holds one question for each text of the records, in ascending order
/// of text, each with the union of the answers and paths of its records.
pub open spec fn is_merge_of(qs: Seq<Question>, records: Seq<Record>) -> bool {
    &&& texts_ascending(qs)
    &&& forall|i: int| 0 <= i < qs.len() ==> merged_entry(#[trigger] qs[i], records)
    &&& forall|j: int| 0 <= j < records.len() ==> has_text(qs, #[trigger] records[j].0)
}

proof fn lemma_records_push(records: Seq<Record>, e: Record, t: Seq<char>)
    ensures
        answers_for(records.push(e), t) == (if e.0 == t {
            answers_for(records, t).insert(e.1)
        } else {
            answers_for(records, t)
        }),
        locations_for(records.push(e), t) == (if e.0 == t {
            locations_for(records, t).insert(e.2)
        } else {
            locations_for(records, t)
        }),
        has_record(records.push(e), t) == (has_record(records, t) || e.0 == t),
{
    let s = records.push(e);
    let ra = if e.0 == t {
        answers_for(records, t).insert(e.1)
    } else {
        answers_for(records, t)
    };
    let rl = if e.0 == t {
        locations_for(records, t).insert(e.2)
    } else {
        locations_for(records, t)
    };
    assert forall|a: Seq<char>| answers_for(s, t).contains(a) implies ra.contains(a) by {
        let j = choose|j: int| 0 <= j < s.len() && #[trigger] s[j].0 == t && s[j].1 == a;
        if j < records.len() {
            assert(records[j] == s[j]);
        }
    }
    assert forall|a: Seq<char>| ra.contains(a) implies answers_for(s, t).contains(a) by {
        if answers_for(records, t).contains(a) {
            let j = choose|j: int| 0 <= j < records.len() && #[trigger] records[j].0 == t && records[j].1 == a;
            assert(s[j] == records[j]);
        } else {
            assert(s[records.len() as int] == e);
        }
    }
    assert(answers_for(s, t) =~= ra);
    assert forall|l: Seq<char>| locations_for(s, t).contains(l) implies rl.contains(l) by {
        let j = choose|j: int| 0 <= j < s.len() && #[trigger] s[j].0 == t && s[j].2 == l;
        if j < records.len() {
            assert(records[j] == s[j]);
        }
    }
    assert forall|l: Seq<char>| rl.contains(l) implies locations_for(s, t).contains(l) by {
        if locations_for(records, t).contains(l) {
            let j = choose|j: int| 0 <= j < records.len() && #[trigger] records[j].0 == t && records[j].2 == l;
            assert(s[j] == records[j]);
        } else {
            assert(s[records.len() as int] == e);
        }
    }
    assert(locations_for(s, t) =~= rl);
    if has_record(records, t) {
        let j = choose|j: int| 0 <= j < records.len() && #[trigger] records[j].0 == t;
        assert(s[j] == records[j]);
    }
    if has_record(s, t) {
        let j = choose|j: int| 0 <= j < s.len() && #[trigger] s[j].0 == t;
        if j < records.len() {
            assert(s[j] == records[j]);
        }
    }
    if e.0 == t {
        assert(s[records.len() as int] == e);
    }
}

proof fn lemma_merge_step(
    acc: Seq<Question>,
    records: Seq<Record>,
    q: Question,
    e: Record,
    r: Seq<Question>,
)
    requires
        is_merge_of(acc, records),
        merge_result(acc, q, r),
        texts_ascending(r),
        q.wf(),
        q.unscored(),
        q.question@ == e.0,
        q.answer_set() == set![e.1],
        q.location_set() == set![e.2],
    ensures
        is_merge_of(r, records.push(e)),
{
    let s = records.push(e);
    if has_text(acc, e.0) {
        let i = choose|i: int| 0 <= i < acc.len() && #[trigger] acc[i].question@ == e.0;
        assert forall|k: int| 0 <= k < r.len() implies #[trigger] r[k].question@
            == acc[k].question@ by {
            if k != i {
                assert(r[k] == acc[k]);
            }
        }
        assert forall|k: int| 0 <= k < r.len() implies merged_entry(#[trigger] r[k], s) by {
            let t = acc[k].question@;
            lemma_records_push(records, e, t);
            assert(merged_entry(acc[k], records));
            if k == i {
                assert(r[i].answer_set() =~= answers_for(records, t).insert(e.1));
                assert(r[i].location_set() =~= locations_for(records, t).insert(e.2));
            } else {
                assert(r[k] == acc[k]);
                if k < i {
                    assert(text_lt(acc[k].question@, acc[i].question@));
                } else {
                    assert(text_lt(acc[i].question@, acc[k].question@));
                }
                lemma_text_lt_irreflexive(e.0);
            }
        }
        assert forall|j: int| 0 <= j < s.len() implies has_text(r, #[trigger] s[j].0) by {
            if j < records.len() {
                assert(s[j] == records[j]);
                assert(has_text(acc, records[j].0));
                let k = choose|k: int| 0 <= k < acc.len() && #[trigger] acc[k].question@
                    == records[j].0;
                assert(r[k].question@ == acc[k].question@);
            } else {
                assert(s[j] == e);
                assert(r[i].question@ == acc[i].question@);
            }
        }
    } else {
        let p = choose|p: int| 0 <= p <= acc.len() && r == acc.insert(p, q);
        assert(!has_record(records, e.0)) by {
            if has_record(records, e.0) {
                let j = choose|j: int| 0 <= j < records.len() && #[trigger] records[j].0 == e.0;
                assert(has_text(acc, records[j].0));
            }
        }
        assert forall|k: int| 0 <= k < r.len() implies merged_entry(#[trigger] r[k], s) by {
            if k == p {
                lemma_records_push(records, e, e.0);
                assert(answers_for(records, e.0) =~= Set::empty()) by {
                    assert forall|a: Seq<char>| !answers_for(records, e.0).contains(a) by {
                        if answers_for(records, e.0).contains(a) {
                            let j = choose|j: int| 0 <= j < records.len() && #[trigger] records[j].0 == e.0 && records[j].1 == a;
                        }
                    }
                }
                assert(locations_for(records, e.0) =~= Set::empty()) by {
                    assert forall|l: Seq<char>| !locations_for(records, e.0).contains(l) by {
                        if locations_for(records, e.0).contains(l) {
                            let j = choose|j: int| 0 <= j < records.len() && #[trigger] records[j].0 == e.0 && records[j].2 == l;
                        }
                    }
                }
                assert(r[k] == q);
                assert(answers_for(s, e.0) =~= set![e.1]);
                assert(locations_for(s, e.0) =~= set![e.2]);
            } else {
                let k0 = if k < p {
                    k
                } else {
                    k - 1
                };
                assert(r[k] == acc[k0]);
                assert(merged_entry(acc[k0], records));
                lemma_records_push(records, e, acc[k0].question@);
                assert(acc[k0].question@ != e.0);
            }
        }
        assert forall|j: int| 0 <= j < s.len() implies has_text(r, #[trigger] s[j].0) by {
            if j < records.len() {
                assert(s[j] == records[j]);
                assert(has_text(acc, records[j].0));
                let k = choose|k: int| 0 <= k < acc.len() && #[trigger] acc[k].question@
                    == records[j].0;
                if k < p {
                    assert(r[k] == acc[k]);
                } else {
                    assert(r[k + 1] == acc[k]);
                }
            } else {
                assert(s[j] == e);
                assert(r[p] == q);
            }
        }
    }
}

/// The questions of the files: one per question text, in ascending order of
/// text, each with every answer and every path that its records give.
pub fn read_all_questions_from_paths(sources: &Vec<SourceFile>) -> (r: Vec<Question>)
    ensures
        is_merge_of(r@, records_of_sources(sources@)),
{
    let mut acc: Vec<Question> = Vec::new();
    let mut i: usize = 0;
    proof {
        assert(sources@.take(0) =~= Seq::<SourceFile>::empty());
    }
    while i < sources.len()
        invariant
            i <= sources@.len(),
            is_merge_of(acc@, records_of_sources(sources@.take(i as int))),
        decreases sources@.len() - i,
    {
        let source = &sources[i];
        let lines = get_lines_from_string(source.contents.as_str());
        let ghost base = records_of_sources(sources@.take(i as int));
        let ghost path = source.path@;
        let mut j: usize = 0;
        proof {
            assert(strings_view(lines@).take(0) =~= Seq::<Seq<char>>::empty());
            assert(base + records_of_lines(strings_view(lines@).take(0), path) =~= base);
        }
        while j < lines.len()
            invariant
                j <= lines@.len(),
                path == source.path@,
                is_merge_of(acc@, base + records_of_lines(strings_view(lines@).take(j as int), path)),
            decreases lines@.len() - j,
        {
            let ghost done = base + records_of_lines(strings_view(lines@).take(j as int), path);
            let ghost line = lines@[j as int]@;
            proof {
                let taken = strings_view(lines@).take(j + 1);
                assert(taken.drop_last() =~= strings_view(lines@).take(j as int));
                assert(taken.last() == line);
            }
            let parsed = parse_question_from_line(lines[j].as_str(), source.path.as_str());
            match parsed {
                ParsedLine::Parsed(q) => {
                    let ghost e: Record = (q.question@, q.answer_seq()[0], path);
                    proof {
                        assert(q.answer_seq() =~= seq![e.1]);
                        assert(q.answer_set() =~= set![e.1]);
                        assert(q.location_seq() =~= seq![e.2]);
                        assert(seq![e.2][0] == e.2);
                        assert(q.location_set() =~= set![e.2]);
                        assert forall|k: int| 0 <= k < acc@.len() implies #[trigger] acc@[k].wf() by {
                            assert(merged_entry(acc@[k], done));
                        }
                    }
                    let ghost before = acc@;
                    acc = merge_answers_from_matching_questions(acc, q);
                    proof {
                        lemma_merge_step(before, done, q, e, acc@);
                        assert(done.push(e) =~= base + records_of_lines(
                            strings_view(lines@).take(j + 1),
                            path,
                        ));
                    }
                },
                _ => {
                    proof {
                        assert(done =~= base + records_of_lines(
                            strings_view(lines@).take(j + 1),
                            path,
                        ));
                    }
                },
            }
            j = j + 1;
        }
        proof {
            assert(strings_view(lines@).take(j as int) =~= strings_view(lines@));
            assert(sources@.take(i + 1).drop_last() =~= sources@.take(i as int));
        }
        i = i + 1;
    }
    proof {
        assert(sources@.take(i as int) =~= sources@);
    }
    acc
}

/// A line of a question file without exactly one `|`: the file's path and
/// the line.
#[derive(Debug)]
pub struct MalformedLine {
    pub path: String,
    pub line: String,
}

/// The malformed lines among `lines`, in order, each with `path`.
pub open spec fn malformed_in_lines(lines: Seq<Seq<char>>, path: Seq<char>) -> Seq<
    (Seq<char>, Seq<char>),
>
    decreases lines.len(),
{
    if lines.len() == 0 {
        Seq::empty()
    } else {
        let rest = malformed_in_lines(lines.drop_last(), path);
        let l = lines.last();
        if !is_ignored_line(l) && !has_one_delimiter(l) {
            rest.push((path, l))
        } else {
            rest
        }
    }
}

/// The malformed lines of the files, file by file and line by line.
pub open spec fn malformed_in_sources(sources: Seq<SourceFile>) -> Seq<(Seq<char>, Seq<char>)>
    decreases sources.len(),
{
    if sources.len() == 0 {
        Seq::empty()
    } else {
        malformed_in_sources(sources.drop_last()) + malformed_in_lines(
            lines_of(sources.last().contents@),
            sources.last().path@,
        )
    }
}

/// The path and text of each malformed line.
pub open spec fn malformed_view(v: Seq<MalformedLine>) -> Seq<(Seq<char>, Seq<char>)> {
    v.map_values(|m: MalformedLine| (m.path@, m.line@))
}

/// The lines of the files that are skipped as malformed, so that they can
/// be reported.
pub fn find_malformed_lines(sources: &Vec<SourceFile>) -> (r: Vec<MalformedLine>)
    ensures
        malformed_view(r@) == malformed_in_sources(sources@),
{
    let mut found: Vec<MalformedLine> = Vec::new();
    let mut i: usize = 0;
    proof {
        assert(sources@.take(0) =~= Seq::<SourceFile>::empty());
        assert(malformed_view(found@) =~= Seq::<(Seq<char>, Seq<char>)>::empty());
    }
    while i < sources.len()
        invariant
            i <= sources@.len(),
            malformed_view(found@) == malformed_in_sources(sources@.take(i as int)),
        decreases sources@.len() - i,
    {
        let source = &sources[i];
        let lines = get_lines_from_string(source.contents.as_str());
        let ghost base = malformed_in_sources(sources@.take(i as int));
        let ghost path = source.path@;
        let mut j: usize = 0;
        proof {
            assert(strings_view(lines@).take(0) =~= Seq::<Seq<char>>::empty());
            assert(base + malformed_in_lines(strings_view(lines@).take(0), path) =~= base);
        }
        while j < lines.len()
            invariant
                j <= lines@.len(),
                path == source.path@,
                malformed_view(found@) == base + malformed_in_lines(
                    strings_view(lines@).take(j as int),
                    path,
                ),
            decreases lines@.len() - j,
        {
            let ghost done = malformed_view(found@);
            proof {
                let taken = strings_view(lines@).take(j + 1);
                assert(taken.drop_last() =~= strings_view(lines@).take(j as int));
                assert(taken.last() == lines@[j as int]@);
            }
            match parse_question_from_line(lines[j].as_str(), source.path.as_str()) {
                ParsedLine::Malformed => {
                    let entry = MalformedLine {
                        path: string_of(source.path.as_str()),
                        line: string_of(lines[j].as_str()),
                    };
                    found.push(entry);
                    proof {
                        assert(malformed_view(found@) =~= done.push((path, lines@[j as int]@)));
                        assert(done.push((path, lines@[j as int]@)) =~= base + malformed_in_lines(
                            strings_view(lines@).take(j + 1),
                            path,
                        ));
                    }
                },
                _ => {
                    proof {
                        assert(done =~= base + malformed_in_lines(
                            strings_view(lines@).take(j + 1),
                            path,
                        ));
                    }
                },
            }
            j = j + 1;
        }
        proof {
            assert(strings_view(lines@).take(j as int) =~= strings_view(lines@));
            assert(sources@.take(i + 1).drop_last() =~= sources@.take(i as int));
        }
        i = i + 1;
    }
    proof {
        assert(sources@.take(i as int) =~= sources@);
    }
    found
}

/// A line `q|a` whose parts hold no `|`, and whose question part opens
/// with no `#`, holds the record of the normalised parts.
pub proof fn lemma_record_line(q: Seq<char>, a: Seq<char>)
    requires
        !q.contains('|'),
        !a.contains('|'),
        q.len() == 0 || q[0] != '#',
    ensures
        record_of(q + seq!['|'] + a) == Some((normalized(q), normalized(a))),
{
    let l = q + seq!['|'] + a;
    assert forall|i: int| 0 <= i < q.len() implies #[trigger] l[i] != '|' by {
        assert(l[i] == q[i]);
        if l[i] == '|' {
            assert(q.contains('|'));
        }
    }
    lemma_prefix_without(l, '|', q.len() as int);
    assert(l[q.len() as int] == '|');
    assert(!is_white_space_spec('|'));
    assert(!is_ignored_line(l));
    assert(l.skip(q.len() + 1 as int) =~= a);
    assert(l.take(q.len() as int) =~= q);
}

/// `a` and `b` hold the same records, whatever their order and repetitions.
pub open spec fn same_records(a: Seq<Record>, b: Seq<Record>) -> bool {
    forall|x: Record| a.contains(x) <==> b.contains(x)
}

/// `r1` and `r2` hold the same texts, as many questions, and for each text
/// the same answers and the same locations.
pub open spec fn same_questions(r1: Seq<Question>, r2: Seq<Question>) -> bool {
    &&& r1.len() == r2.len()
    &&& forall|t: Seq<char>| has_text(r1, t) == has_text(r2, t)
    &&& forall|i: int, j: int|
        0 <= i < r1.len() && 0 <= j < r2.len() && (#[trigger] r1[i]).question@ == (
        #[trigger] r2[j]).question@ ==> r1[i].answer_set() == r2[j].answer_set()
            && r1[i].location_set() == r2[j].location_set()
}

proof fn lemma_merge_texts(r: Seq<Question>, records: Seq<Record>, t: Seq<char>)
    requires
        is_merge_of(r, records),
    ensures
        has_text(r, t) == has_record(records, t),
{
    if has_text(r, t) {
        let i = choose|i: int| 0 <= i < r.len() && #[trigger] r[i].question@ == t;
        assert(merged_entry(r[i], records));
    }
    if has_record(records, t) {
        let j = choose|j: int| 0 <= j < records.len() && #[trigger] records[j].0 == t;
        assert(has_text(r, records[j].0));
    }
}

proof fn lemma_same_records_sets(a: Seq<Record>, b: Seq<Record>, t: Seq<char>)
    requires
        same_records(a, b),
    ensures
        answers_for(a, t) == answers_for(b, t),
        locations_for(a, t) == locations_for(b, t),
        has_record(a, t) == has_record(b, t),
{
    assert forall|x: Seq<char>| answers_for(a, t).contains(x) implies answers_for(b, t).contains(x) by {
        let j = choose|j: int| 0 <= j < a.len() && #[trigger] a[j].0 == t && a[j].1 == x;
        assert(a.contains(a[j]));
        let k = choose|k: int| 0 <= k < b.len() && b[k] == a[j];
        assert(b[k].0 == t);
    }
    assert forall|x: Seq<char>| answers_for(b, t).contains(x) implies answers_for(a, t).contains(x) by {
        let j = choose|j: int| 0 <= j < b.len() && #[trigger] b[j].0 == t && b[j].1 == x;
        assert(b.contains(b[j]));
        let k = choose|k: int| 0 <= k < a.len() && a[k] == b[j];
        assert(a[k].0 == t);
    }
    assert(answers_for(a, t) =~= answers_for(b, t));
    assert forall|x: Seq<char>| locations_for(a, t).contains(x) implies locations_for(b, t).contains(x) by {
        let j = choose|j: int| 0 <= j < a.len() && #[trigger] a[j].0 == t && a[j].2 == x;
        assert(a.contains(a[j]));
        let k = choose|k: int| 0 <= k < b.len() && b[k] == a[j];
        assert(b[k].0 == t);
    }
    assert forall|x: Seq<char>| locations_for(b, t).contains(x) implies locations_for(a, t).contains(x) by {
        let j = choose|j: int| 0 <= j < b.len() && #[trigger] b[j].0 == t && b[j].2 == x;
        assert(b.contains(b[j]));
        let k = choose|k: int| 0 <= k < a.len() && a[k] == b[j];
        assert(a[k].0 == t);
    }
    assert(locations_for(a, t) =~= locations_for(b, t));
    if has_record(a, t) {
        let j = choose|j: int| 0 <= j < a.len() && #[trigger] a[j].0 == t;
        assert(a.contains(a[j]));
        let k = choose|k: int| 0 <= k < b.len() && b[k] == a[j];
        assert(b[k].0 == t);
    }
    if has_record(b, t) {
        let j = choose|j: int| 0 <= j < b.len() && #[trigger] b[j].0 == t;
        assert(b.contains(b[j]));
        let k = choose|k: int| 0 <= k < a.len() && a[k] == b[j];
        assert(a[k].0 == t);
    }
}

/// The merge of a set of records is unique: two merges of the same records,
/// in whatever order and with whatever repetitions, hold the same texts,
/// and for each text the same answers and locations.
pub proof fn lemma_merge_unique(
    r1: Seq<Question>,
    records1: Seq<Record>,
    r2: Seq<Question>,
    records2: Seq<Record>,
)
    requires
        is_merge_of(r1, records1),
        is_merge_of(r2, records2),
        same_records(records1, records2),
    ensures
        same_questions(r1, r2),
{
    assert forall|t: Seq<char>| has_text(r1, t) == has_text(r2, t) by {
        lemma_merge_texts(r1, records1, t);
        lemma_merge_texts(r2, records2, t);
        lemma_same_records_sets(records1, records2, t);
    }
    assert forall|i: int, j: int|
        0 <= i < r1.len() && 0 <= j < r2.len() && (#[trigger] r1[i]).question@ == (
        #[trigger] r2[j]).question@ implies r1[i].answer_set() == r2[j].answer_set()
        && r1[i].location_set() == r2[j].location_set() by {
        assert(merged_entry(r1[i], records1));
        assert(merged_entry(r2[j], records2));
        lemma_same_records_sets(records1, records2, r1[i].question@);
    }
    let t1 = r1.map_values(|q: Question| q.question@);
    let t2 = r2.map_values(|q: Question| q.question@);
    assert forall|a: int, b: int| 0 <= a < t1.len() && 0 <= b < t1.len() && a != b implies t1[a]
        != t1[b] by {
        if a < b {
            assert(text_lt(r1[a].question@, r1[b].question@));
        } else {
            assert(text_lt(r1[b].question@, r1[a].question@));
        }
        lemma_text_lt_irreflexive(t1[a]);
    }
    assert forall|a: int, b: int| 0 <= a < t2.len() && 0 <= b < t2.len() && a != b implies t2[a]
        != t2[b] by {
        if a < b {
            assert(text_lt(r2[a].question@, r2[b].question@));
        } else {
            assert(text_lt(r2[b].question@, r2[a].question@));
        }
        lemma_text_lt_irreflexive(t2[a]);
    }
    assert(t1.to_set() =~= t2.to_set()) by {
        assert forall|t: Seq<char>| t1.to_set().contains(t) implies t2.to_set().contains(t) by {
            let i = choose|i: int| 0 <= i < t1.len() && t1[i] == t;
            assert(has_text(r1, r1[i].question@));
            let j = choose|j: int| 0 <= j < r2.len() && #[trigger] r2[j].question@ == t;
            assert(t2[j] == t);
        }
        assert forall|t: Seq<char>| t2.to_set().contains(t) implies t1.to_set().contains(t) by {
            let j = choose|j: int| 0 <= j < t2.len() && t2[j] == t;
            assert(has_text(r2, r2[j].question@));
            let i = choose|i: int| 0 <= i < r1.len() && #[trigger] r1[i].question@ == t;
            assert(t1[i] == t);
        }
    }
    t1.unique_seq_to_set();
    t2.unique_seq_to_set();
}

/// Folding two more records into a merge gives the same questions in
/// either order: same texts, and for each text the same answers and
/// locations.
pub proof fn lemma_merge_fold_order_independent(
    records: Seq<Record>,
    e1: Record,
    e2: Record,
    m1: Seq<Question>,
    m2: Seq<Question>,
)
    requires
        is_merge_of(m1, records.push(e1).push(e2)),
        is_merge_of(m2, records.push(e2).push(e1)),
    ensures
        same_questions(m1, m2),
{
    let a = records.push(e1).push(e2);
    let b = records.push(e2).push(e1);
    assert forall|x: Record| a.contains(x) <==> b.contains(x) by {
        if a.contains(x) {
            let k = choose|k: int| 0 <= k < a.len() && a[k] == x;
            if k < records.len() {
                assert(b[k] == x);
            } else if k == records.len() {
                assert(b[k + 1] == x);
            } else {
                assert(b[k - 1] == x);
            }
        }
        if b.contains(x) {
            let k = choose|k: int| 0 <= k < b.len() && b[k] == x;
            if k < records.len() {
                assert(a[k] == x);
            } else if k == records.len() {
                assert(a[k + 1] == x);
            } else {
                assert(a[k - 1] == x);
            }
        }
    }
    lemma_merge_unique(m1, a, m2, b);
}

proof fn lemma_records_of_sources_contains(sources: Seq<SourceFile>, x: Record)
    ensures
        records_of_sources(sources).contains(x) <==> exists|i: int|
            0 <= i < sources.len() && records_of_lines(
                lines_of((#[trigger] sources[i]).contents@),
                sources[i].path@,
            ).contains(x),
    decreases sources.len(),
{
    if sources.len() > 0 {
        let rest = sources.drop_last();
        let last = sources.last();
        let a = records_of_sources(rest);
        let b = records_of_lines(lines_of(last.contents@), last.path@);
        lemma_records_of_sources_contains(rest, x);
        if (a + b).contains(x) {
            let k = choose|k: int| 0 <= k < (a + b).len() && (a + b)[k] == x;
            if k < a.len() {
                assert(a[k] == x);
                let i = choose|i: int|
                    0 <= i < rest.len() && records_of_lines(
                        lines_of((#[trigger] rest[i]).contents@),
                        rest[i].path@,
                    ).contains(x);
                assert(sources[i] == rest[i]);
            } else {
                assert(b[k - a.len()] == x);
                assert(sources[sources.len() - 1] == last);
            }
        }
        if exists|i: int|
            0 <= i < sources.len() && records_of_lines(
                lines_of((#[trigger] sources[i]).contents@),
                sources[i].path@,
            ).contains(x) {
            let i = choose|i: int|
                0 <= i < sources.len() && records_of_lines(
                    lines_of((#[trigger] sources[i]).contents@),
                    sources[i].path@,
                ).contains(x);
            if i < rest.len() {
                assert(rest[i] == sources[i]);
                let k = choose|k: int| 0 <= k < a.len() && a[k] == x;
                assert((a + b)[k] == x);
            } else {
                assert(sources[i] == last);
                let k = choose|k: int| 0 <= k < b.len() && b[k] == x;
                assert((a + b)[a.len() + k] == x);
            }
        }
    }
}

/// Reading the same files in another order gives the same questions: same
/// texts, and for each text the same answers and locations.
pub proof fn lemma_source_order_independent(
    sources1: Seq<SourceFile>,
    sources2: Seq<SourceFile>,
    r1: Seq<Question>,
    r2: Seq<Question>,
)
    requires
        sources1.to_multiset() == sources2.to_multiset(),
        is_merge_of(r1, records_of_sources(sources1)),
        is_merge_of(r2, records_of_sources(sources2)),
    ensures
        same_questions(r1, r2),
{
    broadcast use vstd::seq_lib::group_to_multiset_ensures;

    let a = records_of_sources(sources1);
    let b = records_of_sources(sources2);
    assert forall|x: Record| a.contains(x) <==> b.contains(x) by {
        lemma_records_of_sources_contains(sources1, x);
        lemma_records_of_sources_contains(sources2, x);
        if a.contains(x) {
            let i = choose|i: int|
                0 <= i < sources1.len() && records_of_lines(
                    lines_of((#[trigger] sources1[i]).contents@),
                    sources1[i].path@,
                ).contains(x);
            let s = sources1[i];
            assert(sources1.contains(s));
            assert(sources2.to_multiset().count(s) > 0);
            let j = choose|j: int| 0 <= j < sources2.len() && sources2[j] == s;
            assert(records_of_lines(lines_of(sources2[j].contents@), sources2[j].path@).contains(x));
        }
        if b.contains(x) {
            let i = choose|i: int|
                0 <= i < sources2.len() && records_of_lines(
                    lines_of((#[trigger] sources2[i]).contents@),
                    sources2[i].path@,
                ).contains(x);
            let s = sources2[i];
            assert(sources2.contains(s));
            assert(sources1.to_multiset().count(s) > 0);
            let j = choose|j: int| 0 <= j < sources1.len() && sources1[j] == s;
            assert(records_of_lines(lines_of(sources1[j].contents@), sources1[j].path@).contains(x));
        }
    }
    lemma_merge_unique(r1, a, r2, b);
}

/// Merging two questions with one text gives one question whose answers
/// and locations are the unions of theirs, whichever of the two comes first.
pub proof fn lemma_merge_order_independent(
    a: Question,
    b: Question,
    ab: Seq<Question>,
    ba: Seq<Question>,
)
    requires
        a.question@ == b.question@,
        merge_result(seq![a], b, ab),
        merge_result(seq![b], a, ba),
    ensures
        ab.len() == 1,
        ba.len() == 1,
        ab[0].question@ == a.question@,
        ba[0].question@ == a.question@,
        ab[0].answer_set() == a.answer_set() + b.answer_set(),
        ab[0].location_set() == a.location_set() + b.location_set(),
        ba[0].answer_set() == ab[0].answer_set(),
        ba[0].location_set() == ab[0].location_set(),
{
    assert(seq![a][0].question@ == b.question@);
    assert(has_text(seq![a], b.question@));
    assert(seq![b][0].question@ == a.question@);
    assert(has_text(seq![b], a.question@));
    assert(a.answer_set() + b.answer_set() =~= b.answer_set() + a.answer_set());
    assert(a.location_set() + b.location_set() =~= b.location_set() + a.location_set());
}

/// A file whose whole content is one record `q|a` gives exactly one
/// question: the normalised `q`, with the normalised `a` as its one answer
/// and the file's path as its one location.
pub proof fn lemma_single_record_file(
    source: SourceFile,
    q: Seq<char>,
    a: Seq<char>,
    qs: Seq<Question>,
)
    requires
        source.contents@ == q + seq!['|'] + a,
        !q.contains('|'),
        !a.contains('|'),
        !q.contains('\n'),
        !a.contains('\n'),
        q.len() == 0 || q[0] != '#',
        is_merge_of(qs, records_of_sources(seq![source])),
    ensures
        qs.len() == 1,
        qs[0].question@ == normalized(q),
        qs[0].answer_set() == set![normalized(a)],
        qs[0].location_set() == set![source.path@],
{
    let l = q + seq!['|'] + a;
    assert forall|i: int| 0 <= i < l.len() implies #[trigger] l[i] != '\n' by {
        if i < q.len() {
            assert(l[i] == q[i]);
            if l[i] == '\n' {
                assert(q.contains('\n'));
            }
        } else if i > q.len() {
            assert(l[i] == a[i - q.len() - 1]);
            if l[i] == '\n' {
                assert(a.contains('\n'));
            }
        }
    }
    lemma_prefix_without(l, '\n', l.len() as int);
    assert(lines_of(l) == seq![l]);
    lemma_record_line(q, a);
    let e: Record = (normalized(q), normalized(a), source.path@);
    assert(seq![l].drop_last() =~= Seq::<Seq<char>>::empty());
    assert(seq![l].last() == l);
    assert(records_of_lines(Seq::<Seq<char>>::empty(), source.path@) == Seq::<Record>::empty());
    assert(records_of_lines(seq![l], source.path@) =~= seq![e]);
    assert(seq![source].drop_last() =~= Seq::<SourceFile>::empty());
    assert(seq![source].last() == source);
    assert(records_of_sources(Seq::<SourceFile>::empty()) == Seq::<Record>::empty());
    let records = records_of_sources(seq![source]);
    assert(records =~= seq![e]);
    assert(has_text(qs, records[0].0));
    let i = choose|i: int| 0 <= i < qs.len() && #[trigger] qs[i].question@ == e.0;
    assert forall|k: int| 0 <= k < qs.len() implies #[trigger] qs[k].question@ == e.0 by {
        assert(merged_entry(qs[k], records));
        let j = choose|j: int| 0 <= j < records.len() && #[trigger] records[j].0 == qs[k].question@;
    }
    if qs.len() > 1 {
        assert(text_lt(qs[0].question@, qs[1].question@));
        lemma_text_lt_irreflexive(e.0);
    }
    assert(merged_entry(qs[0], records));
    assert(answers_for(records, e.0) =~= set![e.1]) by {
        assert(records[0] == e);
    }
    assert(locations_for(records, e.0) =~= set![e.2]) by {
        assert(records[0] == e);
    }
}

} // verus!
