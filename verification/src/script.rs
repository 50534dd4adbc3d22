//! Generating a new workspace script: the file name it gets, the script
//! text built from the answers, and the interpretation of the prompt
//! answers themselves. The generated text declares its workspace number in
//! a dispatch directive line, and the scanner provably recovers it.

use vstd::prelude::*;

use crate::text::{
    dec_rep, is_digit, is_space, last_token, lemma_dec_rep_digits, lemma_dec_rep_parses,
    lemma_last_token_suffix, parse_u32_spec, starts_with, trim_end_spec, trim_spec,
    trim_start_spec, trim_str, u32_to_string,
};
use crate::workspace::{
    directive, lemma_lines_step, line_val, lines_from, lines_of, name_prefix, name_suffix,
    scan_lines, workspace_num_of,
};

verus! {

/// The answers describing one floating window: size, position, command.
pub struct WindowRule {
    pub width: String,
    pub height: String,
    pub pos_x: String,
    pub pos_y: String,
    pub command: String,
}

/// The mathematical content of one window rule.
pub ghost struct RuleModel {
    pub width: Seq<char>,
    pub height: Seq<char>,
    pub pos_x: Seq<char>,
    pub pos_y: Seq<char>,
    pub command: Seq<char>,
}

impl View for WindowRule {
    type V = RuleModel;

    open spec fn view(&self) -> RuleModel {
        RuleModel {
            width: self.width@,
            height: self.height@,
            pos_x: self.pos_x@,
            pos_y: self.pos_y@,
            command: self.command@,
        }
    }
}

/// The models of a sequence of window rules.
pub open spec fn rule_views(rs: Seq<WindowRule>) -> Seq<RuleModel> {
    rs.map_values(|r: WindowRule| r@)
}

/// The opening of the generated script: the interpreter line and the
/// dispatch directive for the chosen workspace.
pub open spec fn header_text(num: nat) -> Seq<char> {
    "#!/bin/bash\n\n"@ + "hyprctl dispatch workspace "@ + dec_rep(num) + "\n\n"@
}

/// The shell helper the generated script defines for window placement.
pub open spec fn rule_fn_def() -> Seq<char> {
    "rule_exec() {\n  local rules=\"$1\"\n  shift\n  hyprctl dispatch exec \"[$rules] $*\"\n}\n\n"@
}

/// One `rule_exec` invocation: the placement rules and the command.
pub open spec fn rule_block_text(num: nat, r: RuleModel) -> Seq<char> {
    "rule_exec \"workspace "@ + dec_rep(num) + " silent; float; size "@ + r.width + " "@ + r.height
        + "; move "@ + r.pos_x + " "@ + r.pos_y + "\" \\\n  "@ + r.command + "\n\n"@
}

/// All the `rule_exec` invocations, in order.
pub open spec fn blocks_text(num: nat, rs: Seq<RuleModel>) -> Seq<char>
    decreases rs.len(),
{
    if rs.len() == 0 {
        Seq::empty()
    } else {
        rule_block_text(num, rs[0]) + blocks_text(num, rs.drop_first())
    }
}

/// The whole generated script.
pub open spec fn script_text(num: nat, rs: Seq<RuleModel>) -> Seq<char> {
    header_text(num) + rule_fn_def() + blocks_text(num, rs)
}

proof fn lemma_blocks_push(num: nat, rs: Seq<RuleModel>, r: RuleModel)
    ensures
        blocks_text(num, rs.push(r)) == blocks_text(num, rs) + rule_block_text(num, r),
    decreases rs.len(),
{
    if rs.len() == 0 {
        assert(rs.push(r)[0] == r);
        assert(rs.push(r).drop_first() =~= Seq::<RuleModel>::empty());
        assert(blocks_text(num, Seq::<RuleModel>::empty()) =~= Seq::<char>::empty());
        assert(blocks_text(num, rs.push(r)) =~= blocks_text(num, rs) + rule_block_text(num, r));
    } else {
        assert(rs.push(r)[0] == rs[0]);
        assert(rs.push(r).drop_first() =~= rs.drop_first().push(r));
        lemma_blocks_push(num, rs.drop_first(), r);
        assert(blocks_text(num, rs.push(r)) =~= blocks_text(num, rs) + rule_block_text(num, r));
    }
}

/// The filename a new script gets from its short name.
pub fn script_file_name(short_name: &str) -> (r: String)
    ensures
        r@ == name_prefix() + short_name@ + name_suffix(),
{
    let mut s = String::from_str("workspace-");
    s.append(short_name);
    s.append(".sh");
    proof {
        assert(s@ =~= name_prefix() + short_name@ + name_suffix());
    }
    s
}

/// The text of one `rule_exec` invocation.
fn rule_block(num: u32, r: &WindowRule) -> (b: String)
    ensures
        b@ == rule_block_text(num as nat, r@),
{
    let mut s = String::from_str("rule_exec \"workspace ");
    let ns = u32_to_string(num);
    s.append(ns.as_str());
    s.append(" silent; float; size ");
    s.append(r.width.as_str());
    s.append(" ");
    s.append(r.height.as_str());
    s.append("; move ");
    s.append(r.pos_x.as_str());
    s.append(" ");
    s.append(r.pos_y.as_str());
    s.append("\" \\\n  ");
    s.append(r.command.as_str());
    s.append("\n\n");
    proof {
        assert(s@ =~= rule_block_text(num as nat, r@));
    }
    s
}

/// Build the full text of a new script for the chosen workspace number and
/// window rules.
pub fn script_content(num: u32, rules: &Vec<WindowRule>) -> (r: String)
    ensures
        r@ == script_text(num as nat, rule_views(rules@)),
{
    let ghost head = header_text(num as nat) + rule_fn_def();
    let mut s = String::from_str("#!/bin/bash\n\n");
    s.append("hyprctl dispatch workspace ");
    let ns = u32_to_string(num);
    s.append(ns.as_str());
    s.append("\n\n");
    s.append("rule_exec() {\n  local rules=\"$1\"\n  shift\n  hyprctl dispatch exec \"[$rules] $*\"\n}\n\n");
    proof {
        assert(s@ =~= head);
        assert(rules@.take(0) =~= Seq::<WindowRule>::empty());
        assert(rule_views(rules@.take(0)) =~= Seq::<RuleModel>::empty());
        assert(s@ =~= head + blocks_text(num as nat, rule_views(rules@.take(0))));
    }
    let mut i: usize = 0;
    while i < rules.len()
        invariant
            0 <= i <= rules.len(),
            s@ == head + blocks_text(num as nat, rule_views(rules@.take(i as int))),
            head == header_text(num as nat) + rule_fn_def(),
        decreases rules.len() - i,
    {
        let r = &rules[i];
        let b = rule_block(num, r);
        s.append(b.as_str());
        proof {
            let pre = rule_views(rules@.take(i as int));
            assert(rules@.take(i + 1) =~= rules@.take(i as int).push(rules@[i as int]));
            assert(rule_views(rules@.take(i + 1)) =~= pre.push(rules@[i as int]@));
            lemma_blocks_push(num as nat, pre, rules@[i as int]@);
            assert(s@ =~= head + blocks_text(num as nat, rule_views(rules@.take(i + 1))));
        }
        i = i + 1;
    }
    proof {
        assert(rules@.take(rules@.len() as int) =~= rules@);
        assert(head + blocks_text(num as nat, rule_views(rules@)) =~= script_text(
            num as nat,
            rule_views(rules@),
        ));
    }
    s
}

/// The round trip at the heart of the generator: a generated script's text
/// declares exactly the workspace number it was built for — the directive
/// scanner recovers `num` from `script_text(num, rs)`, whatever window
/// rules were chosen.
#[verifier::rlimit(100)]
pub proof fn lemma_script_declares_num(num: u32, rs: Seq<RuleModel>)
    ensures
        workspace_num_of(script_text(num as nat, rs)) == Some(num),
{
    reveal_strlit("#!/bin/bash\n\n");
    reveal_strlit("#!/bin/bash");
    reveal_strlit("\n\n");
    reveal_strlit("hyprctl dispatch workspace ");
    reveal_strlit("hyprctl dispatch workspace");
    let n = num as nat;
    let dec = dec_rep(n);
    let ll = dec.len() as int;
    lemma_dec_rep_digits(n);
    lemma_dec_rep_parses(num);
    let s = script_text(n, rs);
    let tail = rule_fn_def() + blocks_text(n, rs);
    let h = "#!/bin/bash\n\n"@;
    let d = "hyprctl dispatch workspace "@;
    assert(h.len() == 13 && d.len() == 27);
    assert(s =~= h + d + dec + "\n\n"@ + tail);
    assert(s.len() == 42 + ll + tail.len());
    // Where each fragment's characters sit in the whole text.
    assert(forall|k: int| 0 <= k < 13 ==> s[k] == h[k]);
    assert(forall|k: int| 0 <= k < 27 ==> s[13 + k] == d[k]);
    assert(forall|k: int| 0 <= k < ll ==> s[40 + k] == dec[k]);
    assert(s[40 + ll] == '\n' && s[41 + ll] == '\n');
    // Digits are neither newlines nor whitespace.
    assert(forall|k: int| 0 <= k < ll ==> is_digit(#[trigger] dec[k]));
    assert(forall|k: int| 0 <= k < ll ==> dec[k] != '\n' && !is_space(#[trigger] dec[k]));
    // The text opens with the interpreter line, a blank line, and the
    // directive line.
    lemma_lines_step(s, 0, 0, 11);
    let l1 = s.subrange(0, 11);
    assert(l1 =~= "#!/bin/bash"@);
    lemma_lines_step(s, 12, 12, 12);
    let l2 = s.subrange(12, 12);
    assert(l2.len() == 0);
    assert(forall|k: int| 13 <= k < 40 + ll ==> s[k] != '\n');
    lemma_lines_step(s, 13, 13, 40 + ll);
    let l3 = s.subrange(13, 40 + ll);
    assert(l3 =~= d + dec);
    let rest = lines_from(s, 41 + ll, 41 + ll);
    assert(lines_of(s) == seq![l1] + (seq![l2] + (seq![l3] + rest)));
    // The interpreter line is a comment to the scanner: too short for the
    // directive anyway, and the blank line says nothing either.
    assert(trim_start_spec(l1) == l1);
    assert(trim_end_spec(l1) == l1);
    assert(directive().len() == 26);
    assert(line_val(l1) is None);
    assert(trim_spec(l2) == l2);
    assert(line_val(l2) is None);
    // The directive line scans to the chosen number.
    assert(l3[0] == 'h' && !is_space(l3[0]));
    assert(l3.len() == 27 + ll);
    assert(l3.last() == dec.last() && !is_space(l3.last()));
    assert(trim_start_spec(l3) == l3);
    assert(trim_end_spec(l3) == l3);
    assert(trim_spec(l3) == l3);
    assert(l3.subrange(0, 26) =~= directive());
    assert(starts_with(l3, directive()));
    assert(l3[26] == ' ' && is_space(l3[26]));
    assert(forall|k: int| 27 <= k < l3.len() ==> !is_space(#[trigger] l3[k]));
    lemma_last_token_suffix(l3, 27);
    assert(last_token(l3) =~= dec);
    assert(line_val(l3) == Some(num));
    // The scan passes the first two lines and stops on the third.
    let after1 = seq![l2] + (seq![l3] + rest);
    let after2 = seq![l3] + rest;
    assert((seq![l1] + after1)[0] == l1);
    assert((seq![l1] + after1).drop_first() =~= after1);
    assert((seq![l2] + after2)[0] == l2);
    assert((seq![l2] + after2).drop_first() =~= after2);
    assert((seq![l3] + rest)[0] == l3);
    assert(scan_lines(seq![l1] + after1) == scan_lines(after1));
    assert(scan_lines(after1) == scan_lines(after2));
    assert(scan_lines(after2) == Some(num));
    assert(scan_lines(lines_of(s)) == Some(num));
}

/// How far `c` is interpreted as the lowercase letter `l`: it is `l`, or
/// its uppercase ASCII form.
pub open spec fn lower_eq(c: char, l: char) -> bool {
    c == l || (c as u32) + 32 == (l as u32)
}

/// Whether an answer spells "y" or "yes" in any letter case.
pub open spec fn is_yes(s: Seq<char>) -> bool {
    (s.len() == 1 && lower_eq(s[0], 'y')) || (s.len() == 3 && lower_eq(s[0], 'y') && lower_eq(
        s[1],
        'e',
    ) && lower_eq(s[2], 's'))
}

/// What a yes/no prompt answer means: empty takes the default, otherwise
/// only "y" or "yes" (case-insensitively) is a yes.
pub open spec fn yes_no_spec(answer: Seq<char>, default_no: bool) -> bool {
    if answer.len() == 0 {
        !default_no
    } else {
        is_yes(answer)
    }
}

fn char_lower_eq(c: char, l: char) -> (r: bool)
    ensures
        r == lower_eq(c, l),
{
    c == l || (c as u32) + 32 == (l as u32)
}

/// Interpret a trimmed yes/no prompt answer, with the given default for an
/// empty answer.
pub fn prompt_yes_no(answer: &str, default_no: bool) -> (r: bool)
    ensures
        r == yes_no_spec(answer@, default_no),
{
    let n = answer.unicode_len();
    if n == 0 {
        !default_no
    } else if n == 1 {
        char_lower_eq(answer.get_char(0), 'y')
    } else if n == 3 {
        char_lower_eq(answer.get_char(0), 'y') && char_lower_eq(answer.get_char(1), 'e')
            && char_lower_eq(answer.get_char(2), 's')
    } else {
        false
    }
}

/// What a workspace-number answer is worth: its trimmed text parsed as a
/// `u32`, accepted only when positive.
pub open spec fn workspace_choice(answer: Seq<char>) -> Option<u32> {
    match parse_u32_spec(trim_spec(answer)) {
        Some(n) => if n > 0 {
            Some(n)
        } else {
            None
        },
        None => None,
    }
}

/// Parse a workspace-number prompt answer; only a positive integer is
/// accepted.
pub fn parse_workspace_choice(answer: &str) -> (r: Option<u32>)
    ensures
        r == workspace_choice(answer@),
{
    let t = trim_str(answer);
    match crate::text::parse_u32(t) {
        Some(n) => if n > 0 {
            Some(n)
        } else {
            None
        },
        None => None,
    }
}

} // verus!
