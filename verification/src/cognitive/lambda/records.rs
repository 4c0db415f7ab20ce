use super::model::{ChainV, EventV, OpV};
use crate::lexicon::render::{entry_text, lemma_entry_text_valid};
use crate::syntax::render::{fs_text, key_text, lemma_fs_text_valid, lemma_key_text_valid};
use crate::text::decimal;
use crate::utf8::{all_valid, lemma_concat, lemma_concat3, lemma_decimal_valid, lemma_str_valid};
use vstd::prelude::*;
use vstd::string::StringSliceAdditionalSpecFns;

verus! {

/// One step of a derivation, as text: the step number, the kind of operation
/// (`merge`, `move` or `check`) and what it worked on.
#[derive(Debug, Clone, PartialEq, Eq)]
pub struct DerivationStepRecord {
    pub step: usize,
    pub operation: String,
    pub detail: String,
}

/// The life of one movement chain, as text.
#[derive(Debug, Clone, PartialEq, Eq)]
pub struct ChainLifecycleRecord {
    pub chain_id: usize,
    pub requirement: String,
    pub introduced_at: usize,
    pub discharged_at: Option<usize>,
    pub status: String,
}

/// The name of the kind of an operation.
pub open spec fn op_name(op: OpV) -> Seq<char> {
    match op {
        OpV::MergeToken(_) => "merge"@,
        OpV::MergeEntry(_) => "merge"@,
        OpV::MoveIntroduce(_, _) => "move"@,
        OpV::CheckDischarge(_, _, _) => "check"@,
    }
}

/// What an operation worked on, as bytes: `token w`, `entry e`,
/// `CHn introduced for f`, or `CHn: required <= provided`.
pub open spec fn op_detail(t: Seq<Seq<u8>>, op: OpV) -> Seq<u8> {
    match op {
        OpV::MergeToken(k) => "token ".spec_bytes() + key_text(t, k),
        OpV::MergeEntry(e) => "entry ".spec_bytes() + entry_text(t, e),
        OpV::MoveIntroduce(id, req) => "CH".spec_bytes() + decimal(id as nat) + " introduced for ".spec_bytes()
            + fs_text(t, req),
        OpV::CheckDischarge(id, req, prov) => "CH".spec_bytes() + decimal(id as nat) + ": ".spec_bytes() + fs_text(
            t,
            req,
        ) + " <= ".spec_bytes() + fs_text(t, prov),
    }
}

/// With a table of valid UTF-8 words, what an operation worked on is valid UTF-8 text.
pub proof fn lemma_op_detail_valid(t: Seq<Seq<u8>>, op: OpV)
    requires
        all_valid(t),
    ensures
        vstd::utf8::valid_utf8(op_detail(t, op)),
{
    match op {
        OpV::MergeToken(k) => {
            lemma_str_valid("token ");
            lemma_key_text_valid(t, k);
            lemma_concat("token ".spec_bytes(), key_text(t, k));
        },
        OpV::MergeEntry(e) => {
            lemma_str_valid("entry ");
            lemma_entry_text_valid(t, e);
            lemma_concat("entry ".spec_bytes(), entry_text(t, e));
        },
        OpV::MoveIntroduce(id, req) => {
            lemma_str_valid("CH");
            lemma_decimal_valid(id as nat);
            lemma_str_valid(" introduced for ");
            lemma_fs_text_valid(t, req);
            lemma_concat3("CH".spec_bytes(), decimal(id as nat), " introduced for ".spec_bytes());
            lemma_concat("CH".spec_bytes() + decimal(id as nat) + " introduced for ".spec_bytes(), fs_text(t, req));
        },
        OpV::CheckDischarge(id, req, prov) => {
            lemma_str_valid("CH");
            lemma_decimal_valid(id as nat);
            lemma_str_valid(": ");
            lemma_str_valid(" <= ");
            lemma_fs_text_valid(t, req);
            lemma_fs_text_valid(t, prov);
            let a = "CH".spec_bytes() + decimal(id as nat) + ": ".spec_bytes();
            lemma_concat3("CH".spec_bytes(), decimal(id as nat), ": ".spec_bytes());
            lemma_concat3(a, fs_text(t, req), " <= ".spec_bytes());
            lemma_concat(a + fs_text(t, req) + " <= ".spec_bytes(), fs_text(t, prov));
        },
    }
}

/// `r` is the record of the event `e`, words read from the table `t`.
pub open spec fn is_step_record(t: Seq<Seq<u8>>, e: EventV, r: DerivationStepRecord) -> bool {
    &&& r.step == e.step
    &&& r.operation@ == op_name(e.op)
    &&& r.detail@ == vstd::utf8::decode_utf8(op_detail(t, e.op))
}

/// The name of the state of a chain.
pub open spec fn status_name(pending: bool) -> Seq<char> {
    if pending {
        "pending"@
    } else {
        "discharged"@
    }
}

/// `r` is the record of the chain `c`, words read from the table `t`.
pub open spec fn is_chain_record(t: Seq<Seq<u8>>, c: ChainV, r: ChainLifecycleRecord) -> bool {
    &&& r.chain_id == c.id
    &&& r.introduced_at == c.introduced_at
    &&& r.discharged_at == c.discharged_at
    &&& r.status@ == status_name(c.pending)
    &&& r.requirement@ == vstd::utf8::decode_utf8(fs_text(t, c.requirement))
}

/// `c` placed into `s` after every chain whose id is not greater.
pub open spec fn insert_by_id(c: ChainV, s: Seq<ChainV>) -> Seq<ChainV>
    decreases s.len(),
{
    if s.len() == 0 {
        seq![c]
    } else if s.last().id <= c.id {
        s.push(c)
    } else {
        insert_by_id(c, s.drop_last()).push(s.last())
    }
}

/// The chains ordered by id; chains with one id keep their order.
pub open spec fn sort_by_id(s: Seq<ChainV>) -> Seq<ChainV>
    decreases s.len(),
{
    if s.len() == 0 {
        s
    } else {
        insert_by_id(s.last(), sort_by_id(s.drop_last()))
    }
}

/// The ids of the chains increase along the sequence.
pub open spec fn ids_increasing(s: Seq<ChainV>) -> bool {
    forall|i: int, j: int| 0 <= i < j < s.len() ==> #[trigger] s[i].id < #[trigger] s[j].id
}

/// Inserting at `pos`, where every chain before has an id not greater and every
/// chain after a greater one, is `insert_by_id`.
pub proof fn lemma_insert_by_id_at(c: ChainV, s: Seq<ChainV>, pos: int)
    requires
        0 <= pos <= s.len(),
        pos > 0 ==> s[pos - 1].id <= c.id,
        forall|k: int| pos <= k < s.len() ==> #[trigger] s[k].id > c.id,
    ensures
        insert_by_id(c, s) == s.insert(pos, c),
    decreases s.len(),
{
    if s.len() == 0 {
        assert(s.insert(pos, c) =~= seq![c]);
    } else if pos == s.len() {
        assert(s.insert(pos, c) =~= s.push(c));
    } else {
        let d = s.drop_last();
        assert forall|k: int| pos <= k < d.len() implies #[trigger] d[k].id > c.id by {
            assert(d[k] == s[k]);
        }
        lemma_insert_by_id_at(c, d, pos);
        assert(s.insert(pos, c) =~= d.insert(pos, c).push(s.last()));
    }
}

/// Sorting chains whose ids already increase changes nothing.
pub proof fn lemma_sort_by_id_increasing(s: Seq<ChainV>)
    requires
        ids_increasing(s),
    ensures
        sort_by_id(s) == s,
    decreases s.len(),
{
    if s.len() > 0 {
        let d = s.drop_last();
        assert(ids_increasing(d)) by {
            assert forall|i: int, j: int| 0 <= i < j < d.len() implies #[trigger] d[i].id < #[trigger] d[j].id by {
                assert(s[i].id < s[j].id);
            }
        }
        lemma_sort_by_id_increasing(d);
        if d.len() > 0 {
            assert(s[d.len() - 1].id < s[s.len() - 1].id);
        }
        assert(d.push(s.last()) =~= s);
    }
}

} // verus!
