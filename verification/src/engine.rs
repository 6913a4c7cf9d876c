//! Log lines in, chain changes out: each line read as a heal, a command or
//! a broken macro, and handed to the cleric chain or the rampage chain.
use vstd::prelude::*;

use crate::chain::{command_done, heal_done, named_you, warned, ChainState, WarningKind};
use crate::command::{opt_view, ChainCommand, ChainKind, CommandView};
use crate::parser::{spec_parse_line, ParseResult, Parser, ResultView};
use crate::text::{append_chars, append_str, chars_of, string_of};

verus! {

/// The banner for a macro that looked like a heal but did not parse.
pub open spec fn unread_text(speaker: Seq<char>, rampage: bool, message: Seq<char>) -> Seq<char> {
    speaker + " sent a "@ + (if rampage { "RCH"@ } else { "CH"@ }) + " macro Alfred could not read: "@ + message
}

/// A command answered on one chain: a refusal shows as that chain's
/// warning, at some moment of the wall clock.
pub open spec fn answered(c0: ChainState, c1: ChainState, cmd: CommandView, speaker: Seq<char>) -> bool {
    exists|t: u64, r: Option<Seq<char>>, mid: ChainState| {
        &&& #[trigger] command_done(c0, mid, cmd, speaker, t, r)
        &&& mid.wf()
        &&& match r {
            None => c1 == mid,
            Some(w) => exists|t2: u64| warned(mid, c1, w, t2, false, WarningKind::Other, None),
        }
    }
}

/// A command for both chains: each takes it, and refusals show only when
/// both refused.
pub open spec fn answered_both(c0: ChainState, r0: ChainState, c1: ChainState, r1: ChainState, cmd: CommandView, speaker: Seq<char>) -> bool {
    exists|t: u64, u: u64, a: Option<Seq<char>>, b: Option<Seq<char>>, cm: ChainState, rm: ChainState| {
        &&& #[trigger] command_done(c0, cm, cmd, speaker, t, a)
        &&& #[trigger] command_done(r0, rm, cmd, speaker, u, b)
        &&& cm.wf() && rm.wf()
        &&& if a is Some && b is Some {
            &&& exists|t2: u64| warned(cm, c1, a->0, t2, false, WarningKind::Other, None)
            &&& exists|t3: u64| warned(rm, r1, b->0, t3, false, WarningKind::Other, None)
        } else {
            c1 == cm && r1 == rm
        }
    }
}

/// One line applied to the two chains: a CH heal to the cleric chain, an
/// RCH heal to the rampage chain, a command to the chain its slot names,
/// a broken macro as a warning on its chain.
pub open spec fn line_applied(tag: Seq<char>, your: Option<Seq<char>>, c0: ChainState, r0: ChainState, c1: ChainState, r1: ChainState, line: Seq<char>) -> bool {
    match spec_parse_line(tag, line, your) {
        ResultView::CompleteHeal(call) => r1 == r0 && exists|t: u64| #[trigger] heal_done(c0, c1, call, t),
        ResultView::RampageHeal(call) => c1 == c0 && exists|t: u64| #[trigger] heal_done(r0, r1, call, t),
        ResultView::Command(cmd, speaker, _, kind) => match kind {
            ChainKind::Cleric => r1 == r0 && answered(c0, c1, cmd, speaker),
            ChainKind::Rampage => c1 == c0 && answered(r0, r1, cmd, speaker),
            ChainKind::Both => answered_both(c0, r0, c1, r1, cmd, speaker),
        },
        ResultView::MalformedHeal { speaker, message, rampage } => unread_applied(c0, r0, c1, r1, speaker, message, rampage),
        ResultView::Ignored => c1 == c0 && r1 == r0,
    }
}

/// A broken macro shown as a warning on its chain.
pub open spec fn unread_applied(c0: ChainState, r0: ChainState, c1: ChainState, r1: ChainState, speaker: Seq<char>, message: Seq<char>, rampage: bool) -> bool {
    let text = unread_text(speaker, rampage, message);
    if rampage {
        c1 == c0 && exists|t: u64| #[trigger] warned(r0, r1, text, t, false, WarningKind::Other, None)
    } else {
        r1 == r0 && exists|t: u64| #[trigger] warned(c0, c1, text, t, false, WarningKind::Other, None)
    }
}

/// The lines applied in order: `states` holds the two chains before the
/// first line and after each one.
pub open spec fn trace_ok(tag: Seq<char>, your: Option<Seq<char>>, states: Seq<(ChainState, ChainState)>, lines: Seq<Seq<char>>) -> bool {
    &&& states.len() == lines.len() + 1
    &&& forall|k: int| 0 <= k < lines.len() ==> line_applied(tag, your, states[k].0, states[k].1, states[k + 1].0, states[k + 1].1, #[trigger] lines[k])
}

/// Lines that mean nothing to either chain leave both chains as they were.
pub proof fn lemma_ignored_lines_change_nothing(
    tag: Seq<char>,
    your: Option<Seq<char>>,
    states: Seq<(ChainState, ChainState)>,
    lines: Seq<Seq<char>>,
)
    requires
        trace_ok(tag, your, states, lines),
        forall|i: int| 0 <= i < lines.len() ==> spec_parse_line(tag, #[trigger] lines[i], your) is Ignored,
    ensures
        states.last() == states[0],
    decreases lines.len(),
{
    if lines.len() > 0 {
        let n = lines.len() - 1;
        let pre_states = states.drop_last();
        let pre_lines = lines.drop_last();
        assert forall|k: int| 0 <= k < pre_lines.len() implies line_applied(
            tag,
            your,
            pre_states[k].0,
            pre_states[k].1,
            pre_states[k + 1].0,
            pre_states[k + 1].1,
            #[trigger] pre_lines[k],
        ) by {
            assert(pre_lines[k] == lines[k]);
            assert(line_applied(tag, your, states[k].0, states[k].1, states[k + 1].0, states[k + 1].1, lines[k]));
        }
        lemma_ignored_lines_change_nothing(tag, your, pre_states, pre_lines);
        assert(spec_parse_line(tag, lines[n], your) is Ignored);
        assert(line_applied(tag, your, states[n].0, states[n].1, states[n + 1].0, states[n + 1].1, lines[n]));
        assert(states[n + 1].0 == states[n].0 && states[n + 1].1 == states[n].1);
    }
}

/// Whose lines these are once the character is named.
pub open spec fn you_after(character: Option<&str>, chain: ChainState) -> Option<Seq<char>> {
    match character {
        Some(n) => Some(n@),
        None => opt_view(chain.your_name),
    }
}

fn copy_name(o: &Option<String>) -> (r: Option<String>)
    ensures
        opt_view(r) == opt_view(*o),
{
    match o {
        Some(s) => Some(s.clone()),
        None => None,
    }
}

/// A command copied for the second chain.
fn copy_command(c: &ChainCommand) -> (r: ChainCommand)
    ensures
        r@ == c@,
{
    match c {
        ChainCommand::MainTank { tank } => ChainCommand::MainTank { tank: tank.clone() },
        ChainCommand::OffTank { tank } => ChainCommand::OffTank { tank: tank.clone() },
        ChainCommand::Split { number } => ChainCommand::Split { number: *number },
        ChainCommand::TankRange { tank, from, to } => ChainCommand::TankRange { tank: tank.clone(), from: *from, to: *to },
        ChainCommand::Untank { tank } => ChainCommand::Untank { tank: tank.clone() },
        ChainCommand::Skip { number } => ChainCommand::Skip { number: *number },
        ChainCommand::Back { number } => ChainCommand::Back { number: *number },
        ChainCommand::ResetChain => ChainCommand::ResetChain,
        ChainCommand::Take { number, player } => ChainCommand::Take { number: *number, player: copy_name(player) },
        ChainCommand::TakeNext { player } => ChainCommand::TakeNext { player: copy_name(player) },
        ChainCommand::Move { from, to } => ChainCommand::Move { from: *from, to: *to },
        ChainCommand::ChainInterval { millis, tank } => ChainCommand::ChainInterval { millis: *millis, tank: copy_name(tank) },
        ChainCommand::StartChain { tank } => ChainCommand::StartChain { tank: copy_name(tank) },
        ChainCommand::EndChain { tank } => ChainCommand::EndChain { tank: copy_name(tank) },
    }
}

pub open spec fn texts(v: Seq<String>) -> Seq<Seq<char>> {
    Seq::new(v.len(), |i: int| v[i]@)
}

/// Some line means something to a chain.
pub open spec fn any_heard(tag: Seq<char>, your: Option<Seq<char>>, lines: Seq<Seq<char>>) -> bool {
    exists|i: int| 0 <= i < lines.len() && !(spec_parse_line(tag, #[trigger] lines[i], your) is Ignored)
}

fn unread_message(speaker: &String, rampage: bool, message: &String) -> (m: String)
    ensures
        m@ == unread_text(speaker@, rampage, message@),
{
    let mut v = chars_of(speaker.as_str());
    append_str(&mut v, " sent a ");
    if rampage {
        append_str(&mut v, "RCH");
    } else {
        append_str(&mut v, "CH");
    }
    append_str(&mut v, " macro Alfred could not read: ");
    append_chars(&mut v, &chars_of(message.as_str()));
    proof {
        assert(v@ =~= unread_text(speaker@, rampage, message@));
    }
    string_of(&v)
}

fn answer(chain: &mut ChainState, cmd: ChainCommand, speaker: String)
    requires
        old(chain).wf(),
    ensures
        final(chain).wf(),
        answered(*old(chain), *final(chain), cmd@, speaker@),
{
    let ghost cv = cmd@;
    let ghost sv = speaker@;
    let ghost c0 = *chain;
    let r = chain.apply_command(cmd, speaker);
    let ghost mid = *chain;
    let ghost rv = opt_view(r);
    proof {
        let t = choose|t: u64| command_done(c0, mid, cv, sv, t, rv);
        assert(command_done(c0, mid, cv, sv, t, rv));
    }
    if let Some(w) = r {
        chain.set_warning(w);
        proof {
            let t = choose|t: u64| command_done(c0, mid, cv, sv, t, rv);
            let t2 = choose|t2: u64| warned(mid, *chain, rv->0, t2, false, WarningKind::Other, None);
            assert(warned(mid, *chain, rv->0, t2, false, WarningKind::Other, None));
            assert(command_done(c0, mid, cv, sv, t, rv) && mid.wf());
            assert(answered(c0, *chain, cv, sv));
        }
    } else {
        proof {
            let t = choose|t: u64| command_done(c0, mid, cv, sv, t, rv);
            assert(command_done(c0, mid, cv, sv, t, rv) && mid.wf());
            assert(answered(c0, *chain, cv, sv));
        }
    }
}

fn apply_command(chain: &mut ChainState, rampage: &mut ChainState, cmd: ChainCommand, speaker: String, kind: ChainKind)
    requires
        old(chain).wf(),
        old(rampage).wf(),
    ensures
        final(chain).wf(),
        final(rampage).wf(),
        kind == ChainKind::Cleric ==> *final(rampage) == *old(rampage),
        kind == ChainKind::Cleric ==> answered(*old(chain), *final(chain), cmd@, speaker@),
        kind == ChainKind::Rampage ==> *final(chain) == *old(chain),
        kind == ChainKind::Rampage ==> answered(*old(rampage), *final(rampage), cmd@, speaker@),
        kind == ChainKind::Both ==> answered_both(*old(chain), *old(rampage), *final(chain), *final(rampage), cmd@, speaker@),
{
    match kind {
        ChainKind::Cleric => {
            let ghost r0 = *rampage;
            let ghost c0 = *chain;
            let ghost cv = cmd@;
            let ghost sv = speaker@;
            answer(chain, cmd, speaker);
            proof {
                assert(*rampage == r0);
                assert(answered(c0, *chain, cv, sv));
                assert(*rampage == *old(rampage));
                assert(c0 == *old(chain));
                assert(cv == cmd@);
                assert(sv == speaker@);
                assert(*final(chain) == *chain);
                assert(*final(rampage) == *rampage);
            }
        },
        ChainKind::Rampage => {
            let ghost c0 = *chain;
            answer(rampage, cmd, speaker);
            proof {
                assert(*chain == c0);
            }
        },
        ChainKind::Both => {
            let ghost cv = cmd@;
            let ghost sv = speaker@;
            let ghost c0 = *chain;
            let ghost r0 = *rampage;
            let ch = chain.apply_command(copy_command(&cmd), speaker.clone());
            let ghost cm = *chain;
            let rch = rampage.apply_command(cmd, speaker);
            let ghost rm = *rampage;
            let ghost a = opt_view(ch);
            let ghost b = opt_view(rch);
            proof {
                let t = choose|t: u64| command_done(c0, cm, cv, sv, t, a);
                let u = choose|u: u64| command_done(r0, rm, cv, sv, u, b);
                assert(command_done(c0, cm, cv, sv, t, a));
                assert(command_done(r0, rm, cv, sv, u, b));
            }
            if ch.is_some() && rch.is_some() {
                if let Some(w) = ch {
                    chain.set_warning(w);
                }
                if let Some(w) = rch {
                    rampage.set_warning(w);
                }
                proof {
                    let t = choose|t: u64| command_done(c0, cm, cv, sv, t, a);
                    let u = choose|u: u64| command_done(r0, rm, cv, sv, u, b);
                    let t2 = choose|t2: u64| warned(cm, *chain, a->0, t2, false, WarningKind::Other, None);
                    let t3 = choose|t3: u64| warned(rm, *rampage, b->0, t3, false, WarningKind::Other, None);
                    assert(warned(cm, *chain, a->0, t2, false, WarningKind::Other, None));
                    assert(warned(rm, *rampage, b->0, t3, false, WarningKind::Other, None));
                    assert(command_done(c0, cm, cv, sv, t, a) && command_done(r0, rm, cv, sv, u, b));
                    assert(answered_both(c0, r0, *chain, *rampage, cv, sv));
                }
            } else {
                proof {
                    let t = choose|t: u64| command_done(c0, cm, cv, sv, t, a);
                    let u = choose|u: u64| command_done(r0, rm, cv, sv, u, b);
                    assert(command_done(c0, cm, cv, sv, t, a) && command_done(r0, rm, cv, sv, u, b));
                    assert(answered_both(c0, r0, *chain, *rampage, cv, sv));
                }
            }
        },
    }
}

/// One line applied to the two chains; says whether it meant anything.
#[verifier::spinoff_prover]
#[verifier::rlimit(60)]
fn apply_line(parser: &Parser, chain: &mut ChainState, rampage: &mut ChainState, line: &str, your_name: &Option<String>) -> (heard: bool)
    requires
        old(chain).wf(),
        old(rampage).wf(),
    ensures
        final(chain).wf(),
        final(rampage).wf(),
        line_applied(parser.tag(), opt_view(*your_name), *old(chain), *old(rampage), *final(chain), *final(rampage), line@),
        heard == !(spec_parse_line(parser.tag(), line@, opt_view(*your_name)) is Ignored),
{
    let yn: Option<&str> = match your_name {
        Some(n) => Some(n.as_str()),
        None => None,
    };
    proof {
        assert(crate::parser::opt_str(yn) == opt_view(*your_name));
    }
    let parsed = parser.parse_line(line, yn);
    let ghost pv = parsed@;
    let ghost c0 = *chain;
    let ghost r0 = *rampage;
    match parsed {
        ParseResult::CompleteHeal(call) => {
            let ghost cv = call@;
            chain.apply_heal(call);
            proof {
                assert(pv == ResultView::CompleteHeal(cv));
                let t = choose|t: u64| heal_done(c0, *chain, cv, t);
                assert(heal_done(c0, *chain, cv, t));
                assert(*rampage == r0);
                assert(line_applied(parser.tag(), opt_view(*your_name), c0, r0, *chain, *rampage, line@));
            }
            true
        },
        ParseResult::RampageHeal(call) => {
            let ghost cv = call@;
            rampage.apply_heal(call);
            proof {
                assert(pv == ResultView::RampageHeal(cv));
                let t = choose|t: u64| heal_done(r0, *rampage, cv, t);
                assert(heal_done(r0, *rampage, cv, t));
                assert(line_applied(parser.tag(), opt_view(*your_name), c0, r0, *chain, *rampage, line@));
            }
            true
        },
        ParseResult::Command(cmd, speaker, y, kind) => {
            proof {
                assert(pv == ResultView::Command(cmd@, speaker@, y, kind));
            }
            apply_command(chain, rampage, cmd, speaker, kind);
            proof {
                assert(line_applied(parser.tag(), opt_view(*your_name), c0, r0, *chain, *rampage, line@));
            }
            true
        },
        ParseResult::MalformedHeal { speaker, message, rampage: is_rampage } => {
            proof {
                assert(pv == ResultView::MalformedHeal { speaker: speaker@, message: message@, rampage: is_rampage });
            }
            let text = unread_message(&speaker, is_rampage, &message);
            let ghost tv = text@;
            if is_rampage {
                rampage.set_warning(text);
                proof {
                    let t = choose|t: u64| warned(r0, *rampage, tv, t, false, WarningKind::Other, None);
                    assert(warned(r0, *rampage, tv, t, false, WarningKind::Other, None));
                    assert(tv == unread_text(speaker@, true, message@));
                    assert(warned(r0, *rampage, unread_text(speaker@, true, message@), t, false, WarningKind::Other, None));
                    assert(*chain == c0);
                    assert(unread_applied(c0, r0, *chain, *rampage, speaker@, message@, true));
                    assert(line_applied(parser.tag(), opt_view(*your_name), c0, r0, *chain, *rampage, line@));
                }
            } else {
                chain.set_warning(text);
                proof {
                    let t = choose|t: u64| warned(c0, *chain, tv, t, false, WarningKind::Other, None);
                    assert(warned(c0, *chain, tv, t, false, WarningKind::Other, None));
                    assert(tv == unread_text(speaker@, false, message@));
                    assert(warned(c0, *chain, unread_text(speaker@, false, message@), t, false, WarningKind::Other, None));
                    assert(*rampage == r0);
                    assert(unread_applied(c0, r0, *chain, *rampage, speaker@, message@, false));
                    assert(line_applied(parser.tag(), opt_view(*your_name), c0, r0, *chain, *rampage, line@));
                }
            }
            true
        },
        ParseResult::Ignored => {
            proof {
                assert(pv == ResultView::Ignored);
                assert(line_applied(parser.tag(), opt_view(*your_name), c0, r0, *chain, *rampage, line@));
            }
            false
        },
    }
}

/// Applies log lines to the cleric chain and the rampage chain, first
/// naming the character the log belongs to; says whether any line meant
/// something to a chain.
pub fn apply_lines(parser: &Parser, chain: &mut ChainState, rampage: &mut ChainState, character: Option<&str>, lines: &[String]) -> (changed: bool)
    requires
        old(chain).wf(),
        old(rampage).wf(),
    ensures
        final(chain).wf(),
        final(rampage).wf(),
        exists|states: Seq<(ChainState, ChainState)>| {
            &&& #[trigger] trace_ok(parser.tag(), you_after(character, *old(chain)), states, texts(lines@))
            &&& match character {
                None => states[0] == (*old(chain), *old(rampage)),
                Some(n) => named_you(*old(chain), states[0].0, n@) && named_you(*old(rampage), states[0].1, n@),
            }
            &&& states.last() == (*final(chain), *final(rampage))
        },
        changed == any_heard(parser.tag(), you_after(character, *old(chain)), texts(lines@)),
        !changed ==> match character {
            None => *final(chain) == *old(chain) && *final(rampage) == *old(rampage),
            Some(n) => named_you(*old(chain), *final(chain), n@) && named_you(*old(rampage), *final(rampage), n@),
        },
{
    if let Some(name) = character {
        chain.set_your_name(String::from_str(name));
        rampage.set_your_name(String::from_str(name));
    }
    let your_name: Option<String> = copy_name(&chain.your_name);
    proof {
        assert(opt_view(your_name) == you_after(character, *old(chain)));
    }
    let ghost c_start = *chain;
    let ghost r_start = *rampage;
    let ghost your = opt_view(your_name);
    let ghost mut states: Seq<(ChainState, ChainState)> = seq![(c_start, r_start)];
    let mut changed = false;
    let mut i: usize = 0;
    while i < lines.len()
        invariant
            i <= lines@.len(),
            chain.wf(),
            rampage.wf(),
            your == opt_view(your_name),
            changed == exists|k: int| 0 <= k < i && !(spec_parse_line(parser.tag(), #[trigger] texts(lines@)[k], your) is Ignored),
            trace_ok(parser.tag(), your, states, texts(lines@).take(i as int)),
            states[0] == (c_start, r_start),
            states.last() == (*chain, *rampage),
        decreases lines@.len() - i,
    {
        let ghost c1 = *chain;
        let ghost r1 = *rampage;
        let ghost lv = lines@[i as int]@;
        let heard = apply_line(parser, chain, rampage, lines[i].as_str(), &your_name);
        proof {
            let t = texts(lines@);
            assert(t[i as int] == lv);
            let old_states = states;
            states = states.push((*chain, *rampage));
            assert forall|k: int| 0 <= k < t.take(i + 1).len() implies line_applied(parser.tag(), your, states[k].0, states[k].1, states[k + 1].0, states[k + 1].1, #[trigger] t.take(i + 1)[k]) by {
                if k < i {
                    assert(t.take(i + 1)[k] == t.take(i as int)[k]);
                    assert(states[k] == old_states[k]);
                    assert(states[k + 1] == old_states[k + 1]);
                } else {
                    assert(states[k] == (c1, r1));
                }
            }
            assert forall|k: int| 0 <= k < i + 1 && !(spec_parse_line(parser.tag(), #[trigger] t[k], your) is Ignored) implies (k < i || heard) by {}
        }
        changed = changed || heard;
        i += 1;
    }
    proof {
        assert(texts(lines@).take(i as int) =~= texts(lines@));
        assert(trace_ok(parser.tag(), your, states, texts(lines@)));
        if !changed {
            lemma_ignored_lines_change_nothing(parser.tag(), your, states, texts(lines@));
        }
    }
    changed
}

} // verus!
