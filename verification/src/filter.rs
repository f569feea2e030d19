use vstd::prelude::*;

use crate::wire::{i32_as_u32, push_all, push_i32_le, u32_le_bytes};

verus! {

// Filter rules. The client sends each rule as a length-prefixed command
// line, then the 32-bit zero that ends the list; with no rules only the
// terminator goes out.

pub enum Rule {
    Exclude(Vec<u8>),
    Include(Vec<u8>),
}

pub enum GRule {
    Exclude(Seq<u8>),
    Include(Seq<u8>),
}

impl View for Rule {
    type V = GRule;

    open spec fn view(&self) -> GRule {
        match self {
            Rule::Exclude(p) => GRule::Exclude(p@),
            Rule::Include(p) => GRule::Include(p@),
        }
    }
}

impl DeepView for Rule {
    type V = GRule;

    open spec fn deep_view(&self) -> GRule {
        self.view()
    }
}

/// The command text of a rule: `-` or `+` and the pattern.
pub open spec fn rule_command(r: GRule) -> Seq<u8> {
    match r {
        GRule::Exclude(p) => seq![45u8] + p,
        GRule::Include(p) => seq![43u8] + p,
    }
}

pub fn to_command(r: &Rule) -> (c: Vec<u8>)
    ensures
        c@ == rule_command(r@),
{
    let mut out: Vec<u8> = Vec::new();
    match r {
        Rule::Exclude(p) => {
            out.push(45);
            push_all(&mut out, p);
        },
        Rule::Include(p) => {
            out.push(43);
            push_all(&mut out, p);
        },
    }
    proof {
        assert(out@ =~= rule_command(r@));
    }
    out
}

/// The wire form of the whole rule list.
pub open spec fn rules_bytes(rs: Seq<GRule>) -> Seq<u8>
    decreases rs.len(),
{
    if rs.len() == 0 {
        u32_le_bytes(0)
    } else {
        u32_le_bytes(rule_command(rs[0]).len() as u32) + rule_command(rs[0]) + rules_bytes(
            rs.drop_first(),
        )
    }
}

/// Encodes the rule list with its terminator. Command lines longer than
/// the signed 32-bit range cannot be framed.
pub fn send_filter_rules(rules: &Vec<Rule>) -> (r: Vec<u8>)
    requires
        forall|i: int|
            0 <= i < rules@.len() ==> rule_command(#[trigger] rules@[i]@).len() < 0x7fff_ffff,
    ensures
        r@ == rules_bytes(rules.deep_view()),
{
    let ghost grs = rules.deep_view();
    let mut out: Vec<u8> = Vec::new();
    let mut i: usize = 0;
    proof {
        assert(grs.skip(0) =~= grs);
    }
    while i < rules.len()
        invariant
            i <= rules@.len(),
            grs == rules.deep_view(),
            forall|k: int|
                0 <= k < rules@.len() ==> rule_command(#[trigger] rules@[k]@).len() < 0x7fff_ffff,
            rules_bytes(grs) == out@ + rules_bytes(grs.skip(i as int)),
        decreases rules@.len() - i,
    {
        let ghost out0 = out@;
        proof {
            assert(grs.skip(i as int)[0] == rules.deep_view()[i as int]);
            assert(rules.deep_view()[i as int] == rules@[i as int].deep_view());
            assert(grs.skip(i as int).drop_first() =~= grs.skip(i + 1));
        }
        let cmd = to_command(&rules[i]);
        push_i32_le(&mut out, cmd.len() as i32);
        push_all(&mut out, &cmd);
        proof {
            assert(i32_as_u32(cmd@.len() as i32) == cmd@.len() as u32);
            assert(out@ + rules_bytes(grs.skip(i + 1)) =~= out0 + rules_bytes(grs.skip(i as int)));
        }
        i = i + 1;
    }
    push_i32_le(&mut out, 0);
    proof {
        assert(grs.skip(rules@.len() as int) =~= Seq::<GRule>::empty());
        assert(out@ =~= rules_bytes(grs));
    }
    out
}

/// What a transfer needs besides the connection: the destination root as
/// raw path bytes, and the filter rules to announce.
pub struct Opts {
    pub dest: Vec<u8>,
    pub filters: Vec<Rule>,
}

} // verus!
