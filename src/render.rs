use vstd::prelude::*;

use crate::parser::{
    block_view, blocks_view, filters_view, notes_view, Axiom, AxiomV, Block, BlockV, Filter,
    FilterV, Instrument,
};
use crate::pitch::{frequency_of, pitch_to_frequency};

verus! {

/// Samples per second of every buffer.
pub const SAMPLE_RATE: usize = 44000;

/// An effect applied to a synthesized note, in the units the synthesizer
/// takes.
#[derive(PartialEq, Eq, Structural, Clone, Copy, Debug)]
pub enum Effect {
    /// One-pole low-pass filter at this cutoff, in Hz.
    LowPass(usize),
    /// The note again at 0.8 loudness after this many samples.
    Echo(usize),
}

/// One note to synthesize and mix into the bar.
#[derive(Debug)]
pub struct NoteEvent {
    /// First sample of the bar that the note is added to.
    pub offset: usize,
    /// Frequency of its square wave, in Hz.
    pub frequency: usize,
    /// Effects to apply, first to last.
    pub effects: Vec<Effect>,
}

/// Everything the synthesizer needs to render one bar.
#[derive(Debug)]
pub struct BarPlan {
    /// Length of the bar in samples.
    pub length: usize,
    /// The notes, in the order of the blocks and of the beats.
    pub notes: Vec<NoteEvent>,
}

/// Why a program cannot be rendered.
#[derive(Debug)]
pub enum RenderError {
    /// A tempo of zero beats per minute.
    ZeroTempo,
    /// An instrument line whose note count differs from the beat count.
    NoteCount { found: usize, expected: u8 },
    UnknownInstrument(String),
    UnknownFilter(String),
    NegativeCutoff(isize),
    NegativeDelay(isize),
    /// An echo delay whose sample count does not fit in a `usize`.
    DelayTooLong(isize),
}

pub struct NoteEventV {
    pub offset: nat,
    pub frequency: nat,
    pub effects: Seq<Effect>,
}

pub struct BarPlanV {
    pub length: nat,
    pub notes: Seq<NoteEventV>,
}

pub enum RenderErrorV {
    ZeroTempo,
    NoteCount { found: nat, expected: nat },
    UnknownInstrument(Seq<char>),
    UnknownFilter(Seq<char>),
    NegativeCutoff(int),
    NegativeDelay(int),
    DelayTooLong(int),
}

impl View for NoteEvent {
    type V = NoteEventV;

    open spec fn view(&self) -> NoteEventV {
        NoteEventV {
            offset: self.offset as nat,
            frequency: self.frequency as nat,
            effects: self.effects@,
        }
    }
}

pub open spec fn events_view(es: Seq<NoteEvent>) -> Seq<NoteEventV> {
    es.map_values(|e: NoteEvent| e@)
}

impl View for BarPlan {
    type V = BarPlanV;

    open spec fn view(&self) -> BarPlanV {
        BarPlanV { length: self.length as nat, notes: events_view(self.notes@) }
    }
}

impl View for RenderError {
    type V = RenderErrorV;

    open spec fn view(&self) -> RenderErrorV {
        match self {
            RenderError::ZeroTempo => RenderErrorV::ZeroTempo,
            RenderError::NoteCount { found, expected } => RenderErrorV::NoteCount {
                found: *found as nat,
                expected: *expected as nat,
            },
            RenderError::UnknownInstrument(s) => RenderErrorV::UnknownInstrument(s@),
            RenderError::UnknownFilter(s) => RenderErrorV::UnknownFilter(s@),
            RenderError::NegativeCutoff(v) => RenderErrorV::NegativeCutoff(*v as int),
            RenderError::NegativeDelay(v) => RenderErrorV::NegativeDelay(*v as int),
            RenderError::DelayTooLong(v) => RenderErrorV::DelayTooLong(*v as int),
        }
    }
}

/// Samples in one bar: `SAMPLE_RATE * 60 / bpm` samples a beat, rounded
/// down, times the beat count.
pub open spec fn bar_length(bpm: nat, beats: nat) -> nat {
    ((SAMPLE_RATE * 60) as nat / bpm) * beats
}

pub open spec fn simple_name() -> Seq<char> {
    seq!['s', 'i', 'm', 'p', 'l', 'e']
}

pub open spec fn lp_name() -> Seq<char> {
    seq!['l', 'p']
}

pub open spec fn echo_name() -> Seq<char> {
    seq!['e', 'c', 'h', 'o']
}

/// The effect that a filter stands for.
pub open spec fn effect_of(f: FilterV) -> Result<Effect, RenderErrorV> {
    if f.name == lp_name() {
        if f.value < 0 {
            Err(RenderErrorV::NegativeCutoff(f.value))
        } else {
            Ok(Effect::LowPass(f.value as usize))
        }
    } else if f.name == echo_name() {
        if f.value < 0 {
            Err(RenderErrorV::NegativeDelay(f.value))
        } else if f.value * SAMPLE_RATE > usize::MAX {
            Err(RenderErrorV::DelayTooLong(f.value))
        } else {
            Ok(Effect::Echo((f.value * SAMPLE_RATE) as usize))
        }
    } else {
        Err(RenderErrorV::UnknownFilter(f.name))
    }
}

/// The effects of a filter stack, or the error of its first bad filter.
pub open spec fn effects_of(fs: Seq<FilterV>) -> Result<Seq<Effect>, RenderErrorV>
    decreases fs.len(),
{
    if fs.len() == 0 {
        Ok(Seq::empty())
    } else {
        match effects_of(fs.drop_last()) {
            Err(e) => Err(e),
            Ok(es) => match effect_of(fs.last()) {
                Err(e) => Err(e),
                Ok(x) => Ok(es.push(x)),
            },
        }
    }
}

/// The notes of an instrument line under the filter stack `stack` (its own
/// filters included), in a bar of `length` samples and `beats` beats.
pub open spec fn instrument_plan(
    name: Seq<char>,
    stack: Seq<FilterV>,
    notes: Seq<nat>,
    beats: nat,
    length: nat,
) -> Result<Seq<NoteEventV>, RenderErrorV> {
    if notes.len() != beats {
        Err(RenderErrorV::NoteCount { found: notes.len(), expected: beats })
    } else if notes.len() == 0 {
        Ok(Seq::empty())
    } else if name != simple_name() {
        Err(RenderErrorV::UnknownInstrument(name))
    } else {
        match effects_of(stack) {
            Err(e) => Err(e),
            Ok(effects) => Ok(
                Seq::new(
                    notes.len(),
                    |i: int|
                        NoteEventV {
                            offset: (length * i as nat) / beats,
                            frequency: frequency_of(notes[i]),
                            effects,
                        },
                ),
            ),
        }
    }
}

/// The notes of a block under the inherited filter stack `stack`.
pub open spec fn block_plan(b: BlockV, stack: Seq<FilterV>, beats: nat, length: nat) -> Result<
    Seq<NoteEventV>,
    RenderErrorV,
>
    decreases b,
{
    match b {
        BlockV::Recursive { filters, blocks } => blocks_plan(blocks, stack + filters, beats, length),
        BlockV::Instrument { name, filters, notes } => instrument_plan(
            name,
            stack + filters,
            notes,
            beats,
            length,
        ),
    }
}

/// The notes of a list of blocks, in order, or the first error.
pub open spec fn blocks_plan(bs: Seq<BlockV>, stack: Seq<FilterV>, beats: nat, length: nat) -> Result<
    Seq<NoteEventV>,
    RenderErrorV,
>
    decreases bs,
{
    if bs.len() == 0 {
        Ok(Seq::empty())
    } else {
        match blocks_plan(bs.drop_last(), stack, beats, length) {
            Err(e) => Err(e),
            Ok(first) => match block_plan(bs.last(), stack, beats, length) {
                Err(e) => Err(e),
                Ok(rest) => Ok(first + rest),
            },
        }
    }
}

/// The plan of a whole program.
pub open spec fn plan_of(a: AxiomV) -> Result<BarPlanV, RenderErrorV> {
    if a.bpm == 0 {
        Err(RenderErrorV::ZeroTempo)
    } else {
        let length = bar_length(a.bpm, a.beats);
        match blocks_plan(a.blocks, Seq::empty(), a.beats, length) {
            Err(e) => Err(e),
            Ok(notes) => Ok(BarPlanV { length, notes }),
        }
    }
}


pub open spec fn effect_res(r: Result<Effect, RenderError>) -> Result<Effect, RenderErrorV> {
    match r {
        Ok(x) => Ok(x),
        Err(e) => Err(e@),
    }
}

pub open spec fn effects_res(r: Result<Vec<Effect>, RenderError>) -> Result<
    Seq<Effect>,
    RenderErrorV,
> {
    match r {
        Ok(x) => Ok(x@),
        Err(e) => Err(e@),
    }
}

pub open spec fn plan_res(r: Result<BarPlan, RenderError>) -> Result<BarPlanV, RenderErrorV> {
    match r {
        Ok(p) => Ok(p@),
        Err(e) => Err(e@),
    }
}

/// How a call that appends notes to `before`, leaving `after`, with result
/// `r`, stands to the `plan` it carries out.
pub open spec fn appended(
    r: Result<(), RenderError>,
    plan: Result<Seq<NoteEventV>, RenderErrorV>,
    before: Seq<NoteEvent>,
    after: Seq<NoteEvent>,
) -> bool {
    match r {
        Ok(_) => plan is Ok && events_view(after) == events_view(before) + plan->Ok_0,
        Err(e) => plan == Err::<Seq<NoteEventV>, RenderErrorV>(e@),
    }
}

/// The largest bar: 255 beats at one beat a minute.
pub open spec fn max_bar_length() -> nat {
    (SAMPLE_RATE * 60 * 255) as nat
}

proof fn lemma_blocks_view_index(s: Seq<Block>)
    ensures
        blocks_view(s).len() == s.len(),
        forall|i: int| 0 <= i < s.len() ==> #[trigger] blocks_view(s)[i] == block_view(s[i]),
    decreases s.len(),
{
    if s.len() > 0 {
        lemma_blocks_view_index(s.drop_last());
    }
}

fn copy_filter(f: &Filter) -> (r: Filter)
    ensures
        r@ == f@,
{
    Filter { name: f.name.clone(), value: f.value }
}

/// The filters of `stack` followed by those of `own`.
fn stack_with(stack: &Vec<Filter>, own: &Vec<Filter>) -> (r: Vec<Filter>)
    ensures
        filters_view(r@) == filters_view(stack@) + filters_view(own@),
{
    let mut r: Vec<Filter> = Vec::new();
    let mut i: usize = 0;
    while i < stack.len()
        invariant
            i <= stack@.len(),
            filters_view(r@) == filters_view(stack@).subrange(0, i as int),
        decreases stack@.len() - i,
    {
        let ghost before = r@;
        let f = copy_filter(&stack[i]);
        r.push(f);
        assert(r@ == before.push(f));
        assert(filters_view(before.push(f)) =~= filters_view(before).push(f@));
        assert(filters_view(r@) =~= filters_view(stack@).subrange(0, i + 1));
        i += 1;
    }
    let mut j: usize = 0;
    while j < own.len()
        invariant
            j <= own@.len(),
            filters_view(r@) == filters_view(stack@) + filters_view(own@).subrange(0, j as int),
        decreases own@.len() - j,
    {
        let ghost before = r@;
        let f = copy_filter(&own[j]);
        r.push(f);
        assert(filters_view(before.push(f)) =~= filters_view(before).push(f@));
        assert(filters_view(r@) =~= filters_view(stack@) + filters_view(own@).subrange(
            0,
            j + 1,
        ));
        j += 1;
    }
    assert(filters_view(own@).subrange(0, own@.len() as int) =~= filters_view(own@));
    r
}

fn copy_effects(es: &Vec<Effect>) -> (r: Vec<Effect>)
    ensures
        r@ == es@,
{
    let mut r: Vec<Effect> = Vec::new();
    let mut i: usize = 0;
    while i < es.len()
        invariant
            i <= es@.len(),
            r@ == es@.subrange(0, i as int),
        decreases es@.len() - i,
    {
        r.push(es[i]);
        i += 1;
    }
    assert(r@ =~= es@);
    r
}

/// Whether `s` is the word `w`.
fn equals_chars(s: &String, w: &Vec<char>) -> (r: bool)
    ensures
        r == (s@ == w@),
{
    let t = s.as_str();
    let n = t.unicode_len();
    if n != w.len() {
        return false;
    }
    let mut i: usize = 0;
    while i < n
        invariant
            n == t@.len(),
            n == w@.len(),
            t@ == s@,
            i <= n,
            forall|j: int| 0 <= j < i ==> t@[j] == w@[j],
        decreases n - i,
    {
        if t.get_char(i) != w[i] {
            return false;
        }
        i += 1;
    }
    assert(s@ =~= w@);
    true
}

fn effect_of_filter(f: &Filter) -> (r: Result<Effect, RenderError>)
    ensures
        effect_res(r) == effect_of(f@),
{
    let lp: Vec<char> = vec!['l', 'p'];
    let echo: Vec<char> = vec!['e', 'c', 'h', 'o'];
    assert(lp@ =~= lp_name());
    assert(echo@ =~= echo_name());
    if equals_chars(&f.name, &lp) {
        if f.value < 0 {
            Err(RenderError::NegativeCutoff(f.value))
        } else {
            Ok(Effect::LowPass(f.value as usize))
        }
    } else if equals_chars(&f.name, &echo) {
        if f.value < 0 {
            Err(RenderError::NegativeDelay(f.value))
        } else {
            match (f.value as usize).checked_mul(SAMPLE_RATE) {
                Some(d) => Ok(Effect::Echo(d)),
                None => Err(RenderError::DelayTooLong(f.value)),
            }
        }
    } else {
        Err(RenderError::UnknownFilter(f.name.clone()))
    }
}

fn effects_of_stack(fs: &Vec<Filter>) -> (r: Result<Vec<Effect>, RenderError>)
    ensures
        effects_res(r) == effects_of(filters_view(fs@)),
{
    let ghost fv = filters_view(fs@);
    let mut out: Vec<Effect> = Vec::new();
    let mut i: usize = 0;
    assert(fv.subrange(0, 0) =~= Seq::<FilterV>::empty());
    while i < fs.len()
        invariant
            i <= fs@.len(),
            fv == filters_view(fs@),
            effects_of(fv.subrange(0, i as int)) == Ok::<Seq<Effect>, RenderErrorV>(out@),
        decreases fs@.len() - i,
    {
        assert(fv.subrange(0, i + 1).drop_last() =~= fv.subrange(0, i as int));
        assert(fv.subrange(0, i + 1).last() == fs@[i as int]@);
        match effect_of_filter(&fs[i]) {
            Ok(x) => {
                out.push(x);
            },
            Err(e) => {
                proof {
                    lemma_effects_error_persists(fv, i as int + 1);
                }
                return Err(e);
            },
        }
        i += 1;
    }
    assert(fv.subrange(0, fs@.len() as int) =~= fv);
    Ok(out)
}

/// An error in the first `i` filters is the error of the whole stack.
proof fn lemma_effects_error_persists(fs: Seq<FilterV>, i: int)
    requires
        0 <= i <= fs.len(),
        effects_of(fs.subrange(0, i)) is Err,
    ensures
        effects_of(fs) == effects_of(fs.subrange(0, i)),
    decreases fs.len() - i,
{
    if i < fs.len() {
        assert(fs.subrange(0, i + 1).drop_last() =~= fs.subrange(0, i));
        lemma_effects_error_persists(fs, i + 1);
    } else {
        assert(fs.subrange(0, i) =~= fs);
    }
}


fn plan_instrument(
    inst: &Instrument,
    stack: &Vec<Filter>,
    beats: u8,
    length: usize,
    out: &mut Vec<NoteEvent>,
) -> (r: Result<(), RenderError>)
    requires
        length <= max_bar_length(),
    ensures
        appended(
            r,
            instrument_plan(
                inst.instrument@,
                filters_view(stack@) + filters_view(inst.filters@),
                notes_view(inst.notes@),
                beats as nat,
                length as nat,
            ),
            old(out)@,
            final(out)@,
        ),
{
    let ghost plan = instrument_plan(
        inst.instrument@,
        filters_view(stack@) + filters_view(inst.filters@),
        notes_view(inst.notes@),
        beats as nat,
        length as nat,
    );
    let n = inst.notes.len();
    if n != beats as usize {
        return Err(RenderError::NoteCount { found: n, expected: beats });
    }
    if n == 0 {
        assert(events_view(out@) + Seq::<NoteEventV>::empty() =~= events_view(out@));
        return Ok(());
    }
    let simple: Vec<char> = vec!['s', 'i', 'm', 'p', 'l', 'e'];
    assert(simple@ =~= simple_name());
    if !equals_chars(&inst.instrument, &simple) {
        return Err(RenderError::UnknownInstrument(inst.instrument.clone()));
    }
    let full = stack_with(stack, &inst.filters);
    let effects = match effects_of_stack(&full) {
        Ok(es) => es,
        Err(e) => {
            return Err(e);
        },
    };
    let ghost events = plan->Ok_0;
    let ghost start = events_view(out@);
    let mut i: usize = 0;
    while i < n
        invariant
            n == inst.notes@.len(),
            n == beats as nat,
            0 < n,
            i <= n,
            length <= max_bar_length(),
            plan is Ok,
            events == plan->Ok_0,
            events.len() == n,
            forall|k: int|
                0 <= k < n ==> #[trigger] events[k] == (NoteEventV {
                    offset: (length as nat * k as nat) / beats as nat,
                    frequency: crate::pitch::frequency_of(inst.notes@[k].pitch as nat),
                    effects: effects@,
                }),
            events_view(out@) == start + events.subrange(0, i as int),
        decreases n - i,
    {
        let ghost k = i as int;
        assert(events[k] == (NoteEventV {
            offset: (length as nat * k as nat) / beats as nat,
            frequency: crate::pitch::frequency_of(inst.notes@[k].pitch as nat),
            effects: effects@,
        }));
        proof {
            assert((length as nat) * (i as nat) <= (length as nat) * 255) by (nonlinear_arith)
                requires
                    i < 256,
            ;
            assert((length as nat) * (i as nat) / (beats as nat) <= length as nat) by (
            nonlinear_arith)
                requires
                    i < beats,
                    beats > 0,
            ;
        }
        let offset = ((length as u64) * (i as u64) / (beats as u64)) as usize;
        let frequency = pitch_to_frequency(inst.notes[i].pitch);
        let ev = NoteEvent { offset, frequency, effects: copy_effects(&effects) };
        let ghost before = out@;
        out.push(ev);
        assert(events_view(before.push(ev)) =~= events_view(before).push(ev@));
        assert(ev@ == events[k]);
        assert(events_view(out@) =~= start + events.subrange(0, i + 1));
        i += 1;
    }
    assert(events.subrange(0, n as int) =~= events);
    Ok(())
}

fn plan_block(
    b: &Block,
    stack: &Vec<Filter>,
    beats: u8,
    length: usize,
    out: &mut Vec<NoteEvent>,
) -> (r: Result<(), RenderError>)
    requires
        length <= max_bar_length(),
    ensures
        appended(
            r,
            block_plan(block_view(*b), filters_view(stack@), beats as nat, length as nat),
            old(out)@,
            final(out)@,
        ),
    decreases b,
{
    match b {
        Block::Recursive(group) => {
            let inner = stack_with(stack, &group.filters);
            plan_blocks(&group.blocks, &inner, beats, length, out)
        },
        Block::Instrument(inst) => plan_instrument(inst, stack, beats, length, out),
    }
}

fn plan_blocks(
    bs: &Vec<Block>,
    stack: &Vec<Filter>,
    beats: u8,
    length: usize,
    out: &mut Vec<NoteEvent>,
) -> (r: Result<(), RenderError>)
    requires
        length <= max_bar_length(),
    ensures
        appended(
            r,
            blocks_plan(blocks_view(bs@), filters_view(stack@), beats as nat, length as nat),
            old(out)@,
            final(out)@,
        ),
    decreases bs,
{
    let ghost bv = blocks_view(bs@);
    let ghost sv = filters_view(stack@);
    let ghost start = events_view(out@);
    proof {
        lemma_blocks_view_index(bs@);
        assert(bv.subrange(0, 0) =~= Seq::<BlockV>::empty());
        assert(start + Seq::<NoteEventV>::empty() =~= start);
    }
    let mut i: usize = 0;
    while i < bs.len()
        invariant
            i <= bs@.len(),
            length <= max_bar_length(),
            bv == blocks_view(bs@),
            sv == filters_view(stack@),
            bv.len() == bs@.len(),
            forall|k: int| 0 <= k < bs@.len() ==> #[trigger] bv[k] == block_view(bs@[k]),
            blocks_plan(bv.subrange(0, i as int), sv, beats as nat, length as nat) is Ok,
            events_view(out@) == start + blocks_plan(
                bv.subrange(0, i as int),
                sv,
                beats as nat,
                length as nat,
            )->Ok_0,
        decreases bs@.len() - i,
    {
        assert(bv.subrange(0, i + 1).drop_last() =~= bv.subrange(0, i as int));
        assert(bv.subrange(0, i + 1).last() == block_view(bs@[i as int]));
        match plan_block(&bs[i], stack, beats, length, out) {
            Ok(()) => {
                assert(events_view(out@) =~= start + blocks_plan(
                    bv.subrange(0, i + 1),
                    sv,
                    beats as nat,
                    length as nat,
                )->Ok_0);
            },
            Err(e) => {
                proof {
                    lemma_blocks_error_persists(bv, sv, beats as nat, length as nat, i as int + 1);
                }
                return Err(e);
            },
        }
        i += 1;
    }
    assert(bv.subrange(0, bs@.len() as int) =~= bv);
    Ok(())
}

/// An error in the first `i` blocks is the error of the whole list.
proof fn lemma_blocks_error_persists(
    bs: Seq<BlockV>,
    stack: Seq<FilterV>,
    beats: nat,
    length: nat,
    i: int,
)
    requires
        0 <= i <= bs.len(),
        blocks_plan(bs.subrange(0, i), stack, beats, length) is Err,
    ensures
        blocks_plan(bs, stack, beats, length) == blocks_plan(bs.subrange(0, i), stack, beats, length),
    decreases bs.len() - i,
{
    if i < bs.len() {
        assert(bs.subrange(0, i + 1).drop_last() =~= bs.subrange(0, i));
        lemma_blocks_error_persists(bs, stack, beats, length, i + 1);
    } else {
        assert(bs.subrange(0, i) =~= bs);
    }
}

/// Plans the rendering of one bar: its length in samples, and every note
/// to synthesize with its offset, frequency and effects. Filter stacks are
/// inherited down the tree, enclosing groups first.
pub fn plan_bar(tree: &Axiom) -> (r: Result<BarPlan, RenderError>)
    ensures
        plan_res(r) == plan_of(tree@),
{
    if tree.bpm == 0 {
        return Err(RenderError::ZeroTempo);
    }
    let beats = tree.signature.0;
    let per_beat = (SAMPLE_RATE * 60) / (tree.bpm as usize);
    proof {
        assert(per_beat * beats <= max_bar_length()) by (nonlinear_arith)
            requires
                per_beat <= SAMPLE_RATE * 60,
                beats <= 255,
        ;
    }
    let length = per_beat * (beats as usize);
    let mut notes: Vec<NoteEvent> = Vec::new();
    let stack: Vec<Filter> = Vec::new();
    assert(filters_view(stack@) =~= Seq::<FilterV>::empty());
    match plan_blocks(&tree.blocks, &stack, beats, length, &mut notes) {
        Ok(()) => {
            assert(events_view(notes@) =~= Seq::<NoteEvent>::empty().map_values(
                |e: NoteEvent| e@,
            ) + blocks_plan(
                tree@.blocks,
                Seq::empty(),
                beats as nat,
                length as nat,
            )->Ok_0);
            Ok(BarPlan { length, notes })
        },
        Err(e) => Err(e),
    }
}


/// A bar that renders is `SAMPLE_RATE * 60 / bpm` samples a beat, rounded
/// down, times the beat count.
pub proof fn lemma_bar_length(a: AxiomV)
    ensures
        plan_of(a) is Ok ==> a.bpm > 0 && plan_of(a)->Ok_0.length == (SAMPLE_RATE as nat * 60 / a.bpm)
            * a.beats,
{
}

/// An instrument line whose note count differs from the beat count fails
/// with an error that gives both counts, whatever filters stand above it.
pub proof fn lemma_note_count_checked(b: BlockV, stack: Seq<FilterV>, beats: nat, length: nat)
    requires
        b is Instrument,
        b->Instrument_notes.len() != beats,
    ensures
        block_plan(b, stack, beats, length) == Err::<Seq<NoteEventV>, RenderErrorV>(
            RenderErrorV::NoteCount { found: b->Instrument_notes.len(), expected: beats },
        ),
{
}

/// Two nested groups with filters `f1` (outer) and `f2` (inner) around an
/// instrument line: its notes get the inherited stack, then `f1`, then
/// `f2`, then the line's own filters.
pub proof fn lemma_filter_stack_order(
    f1: FilterV,
    f2: FilterV,
    name: Seq<char>,
    own: Seq<FilterV>,
    notes: Seq<nat>,
    stack: Seq<FilterV>,
    beats: nat,
    length: nat,
)
    ensures
        block_plan(
            BlockV::Recursive {
                filters: seq![f1],
                blocks: seq![
                    BlockV::Recursive {
                        filters: seq![f2],
                        blocks: seq![BlockV::Instrument { name, filters: own, notes }],
                    },
                ],
            },
            stack,
            beats,
            length,
        ) == instrument_plan(name, stack + seq![f1, f2] + own, notes, beats, length),
{
    let leaf = BlockV::Instrument { name, filters: own, notes };
    let inner = BlockV::Recursive { filters: seq![f2], blocks: seq![leaf] };
    assert(stack + seq![f1] + seq![f2] + own =~= stack + seq![f1, f2] + own);
    lemma_single_block_plan(leaf, stack + seq![f1] + seq![f2], beats, length);
    lemma_single_block_plan(inner, stack + seq![f1], beats, length);
}

proof fn lemma_single_block_plan(b: BlockV, stack: Seq<FilterV>, beats: nat, length: nat)
    ensures
        blocks_plan(seq![b], stack, beats, length) == block_plan(b, stack, beats, length),
{
    assert(seq![b].drop_last() =~= Seq::<BlockV>::empty());
    assert(seq![b].last() == b);
    assert(blocks_plan(Seq::<BlockV>::empty(), stack, beats, length) == Ok::<
        Seq<NoteEventV>,
        RenderErrorV,
    >(Seq::empty()));
    match block_plan(b, stack, beats, length) {
        Ok(ev) => {
            assert(Seq::<NoteEventV>::empty() + ev =~= ev);
        },
        Err(_) => {},
    }
}

/// A program without blocks renders to a bar of the expected length with
/// no notes in it: silence.
pub proof fn lemma_no_blocks_is_silent(a: AxiomV)
    requires
        a.bpm > 0,
        a.blocks.len() == 0,
    ensures
        plan_of(a) == Ok::<BarPlanV, RenderErrorV>(
            BarPlanV { length: bar_length(a.bpm, a.beats), notes: Seq::empty() },
        ),
{
}

} // verus!
