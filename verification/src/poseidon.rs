//! The duplex sponge of the Poseidon hash over the words of a circuit: what
//! is absorbed fills the rate, and a full rate is permuted into the state
//! before more is taken in or given out. The permutation and the padding
//! are those of the chip that lays them out: what a chip gives is named by
//! the chip, and the sponge is stated over those names.

use crate::ecc::error::Error;
use vstd::prelude::*;

verus! {

/// What a chip hands back, as the sequence that it holds.
pub open spec fn seen<T>(r: Result<Vec<T>, Error>) -> Result<Seq<T>, Error> {
    match r {
        Ok(v) => Ok(v@),
        Err(e) => Err(e),
    }
}

/// The instructions of a chip that lays out the Poseidon permutation. What
/// a chip gives is a function of the chip and of what it is given.
pub trait PoseidonInstructions: Sized {
    /// A word in a cell of the circuit.
    type Word: Copy;

    /// What laying out the permutation of the state gives: the permuted
    /// state, or the chip's refusal.
    spec fn permuted(&self, initial_state: Seq<Self::Word>) -> Result<Seq<Self::Word>, Error>;

    /// The chip after it has laid out the permutation of the state.
    spec fn after_permute(&self, initial_state: Seq<Self::Word>) -> Self;

    /// Lays out the permutation of the state.
    fn permute(&mut self, initial_state: &Vec<Self::Word>) -> (r: Result<Vec<Self::Word>, Error>)
        ensures
            seen(r) == old(self).permuted(initial_state@),
            *final(self) == old(self).after_permute(initial_state@),
    ;
}

/// The instructions of a chip that lays out the steps of a duplex sponge
/// over a domain.
pub trait PoseidonDuplexInstructions<D>: PoseidonInstructions {
    /// What laying out the initial state of the domain gives.
    spec fn initial(&self, domain: D) -> Result<Seq<Self::Word>, Error>;

    /// The chip after it has laid out the initial state of the domain.
    spec fn after_initial(&self, domain: D) -> Self;

    /// What padding the input and adding it to the state gives.
    spec fn added(
        &self,
        domain: D,
        initial_state: Seq<Self::Word>,
        input: Seq<Option<Self::Word>>,
    ) -> Result<Seq<Self::Word>, Error>;

    /// The chip after it has padded the input and added it to the state.
    spec fn after_add(
        &self,
        domain: D,
        initial_state: Seq<Self::Word>,
        input: Seq<Option<Self::Word>>,
    ) -> Self;

    /// The output that the state gives.
    spec fn output(&self, state: Seq<Self::Word>) -> Seq<Option<Self::Word>>;

    /// Lays out the initial state of the domain.
    fn initial_state(&mut self, domain: &D) -> (r: Result<Vec<Self::Word>, Error>)
        ensures
            seen(r) == old(self).initial(*domain),
            *final(self) == old(self).after_initial(*domain),
    ;

    /// Pads the input as the domain says and adds it to the state.
    fn pad_and_add(
        &mut self,
        domain: &D,
        initial_state: &Vec<Self::Word>,
        input: &Vec<Option<Self::Word>>,
    ) -> (r: Result<Vec<Self::Word>, Error>)
        ensures
            seen(r) == old(self).added(*domain, initial_state@, input@),
            *final(self) == old(self).after_add(*domain, initial_state@, input@),
    ;

    /// The output that the state gives.
    fn get_output(&self, state: &Vec<Self::Word>) -> (r: Vec<Option<Self::Word>>)
        ensures
            r@ == self.output(state@),
    ;
}

/// The rate of a sponge: what it has absorbed since the last permutation,
/// or what is left of the output of the last.
pub enum Sponge<W> {
    Absorbing(Vec<Option<W>>),
    Squeezing(Vec<Option<W>>),
}

/// What a sponge holds.
pub ghost enum SpongeView<W> {
    Absorbing(Seq<Option<W>>),
    Squeezing(Seq<Option<W>>),
}

impl<W> View for Sponge<W> {
    type V = SpongeView<W>;

    open spec fn view(&self) -> SpongeView<W> {
        match self {
            Sponge::Absorbing(input) => SpongeView::Absorbing(input@),
            Sponge::Squeezing(output) => SpongeView::Squeezing(output@),
        }
    }
}

/// The first place from `from` on that holds a word, or the first that
/// holds none, if there is one.
pub open spec fn place<W>(entries: Seq<Option<W>>, full: bool, from: nat) -> Option<nat>
    decreases entries.len() - from,
{
    if from >= entries.len() {
        None
    } else if (entries[from as int] is Some) == full {
        Some(from)
    } else {
        place(entries, full, from + 1)
    }
}

/// The place that is found is of the kind that is looked for, and no place
/// before it is; where none is found, no place is of that kind.
pub proof fn lemma_place<W>(entries: Seq<Option<W>>, full: bool, from: nat)
    ensures
        place(entries, full, from) matches Some(i) ==> {
            &&& from <= i < entries.len()
            &&& (entries[i as int] is Some) == full
            &&& forall|j: int| from <= j < i ==> ((#[trigger] entries[j]) is Some) != full
        },
        place(entries, full, from) is None ==> forall|j: int|
            from <= j < entries.len() ==> ((#[trigger] entries[j]) is Some) != full,
    decreases entries.len() - from,
{
    if from < entries.len() && (entries[from as int] is Some) != full {
        lemma_place(entries, full, from + 1);
    }
}

/// A rate of `rate` places with the word in its first place and nothing
/// else.
pub open spec fn started<W>(value: W, rate: nat) -> Seq<Option<W>> {
    Seq::new(
        rate,
        |i: int|
            if i == 0 {
                Some(value)
            } else {
                None
            },
    )
}

/// What absorbing a word makes of a sponge of the given rate, where no
/// permutation is needed: the word goes to the first free place of what was
/// absorbed, and a sponge that was being squeezed drops what was left and
/// starts over with the word. Nothing where what was absorbed is full.
pub open spec fn absorbed<W>(sponge: SpongeView<W>, value: W, rate: nat) -> Option<SpongeView<W>> {
    match sponge {
        SpongeView::Absorbing(input) => match place(input, false, 0) {
            Some(i) => Some(SpongeView::Absorbing(input.update(i as int, Some(value)))),
            None => None,
        },
        SpongeView::Squeezing(_) => Some(SpongeView::Absorbing(started(value, rate))),
    }
}

/// What squeezing takes from an output: its first word, and the output
/// without it. Nothing where no word is left.
pub open spec fn squeezed<W>(output: Seq<Option<W>>) -> Option<(W, Seq<Option<W>>)> {
    match place(output, true, 0) {
        Some(i) => Some((output[i as int].unwrap(), output.update(i as int, None))),
        None => None,
    }
}

/// What a sponge can give without a permutation: the first word of an
/// output that is being squeezed, and the output without it.
pub open spec fn ready<W>(sponge: SpongeView<W>) -> Option<(W, Seq<Option<W>>)> {
    match sponge {
        SpongeView::Squeezing(output) => squeezed(output),
        SpongeView::Absorbing(_) => None,
    }
}

/// The first place that holds a word, or the first that holds none.
pub fn find_place<W: Copy>(entries: &Vec<Option<W>>, full: bool) -> (r: Option<usize>)
    ensures
        (match r {
            Some(i) => Some(i as nat),
            None => None,
        }) == place(entries@, full, 0),
{
    let mut i: usize = 0;
    while i < entries.len()
        invariant
            i <= entries.len(),
            place(entries@, full, i as nat) == place(entries@, full, 0),
        decreases entries.len() - i,
    {
        if entries[i].is_some() == full {
            return Some(i);
        }
        i = i + 1;
    }
    None
}

/// A rate with the word in its first place and nothing else.
pub fn start<W: Copy, const RATE: usize>(value: W) -> (r: Vec<Option<W>>)
    ensures
        r@ == started(value, RATE as nat),
{
    let mut input: Vec<Option<W>> = Vec::new();
    let mut i: usize = 0;
    while i < RATE
        invariant
            i <= RATE,
            input@.len() == i,
            forall|j: int|
                0 <= j < i ==> (#[trigger] input@[j]) == (if j == 0 {
                    Some(value)
                } else {
                    None
                }),
        decreases RATE - i,
    {
        input.push(
            if i == 0 {
                Some(value)
            } else {
                None
            },
        );
        i = i + 1;
    }
    proof {
        assert(input@ =~= started(value, RATE as nat));
    }
    input
}

/// An empty rate.
pub fn empty<W: Copy, const RATE: usize>() -> (r: Vec<Option<W>>)
    ensures
        r@ == nothing::<W>(RATE as nat),
{
    let mut input: Vec<Option<W>> = Vec::new();
    let mut i: usize = 0;
    while i < RATE
        invariant
            i <= RATE,
            input@.len() == i,
            forall|j: int| 0 <= j < i ==> (#[trigger] input@[j]) is None,
        decreases RATE - i,
    {
        input.push(None);
        i = i + 1;
    }
    proof {
        assert(input@ =~= nothing::<W>(RATE as nat));
    }
    input
}

/// Absorbs a word into the sponge where no permutation is needed; a sponge
/// whose rate is full is handed back as it is.
pub fn absorb_word<W: Copy, const RATE: usize>(sponge: Sponge<W>, value: W) -> (r: Result<
    Sponge<W>,
    Sponge<W>,
>)
    ensures
        match absorbed(sponge@, value, RATE as nat) {
            Some(next) => r matches Ok(s) && s@ == next,
            None => r matches Err(s) && s == sponge,
        },
{
    match sponge {
        Sponge::Absorbing(input) => {
            match find_place(&input, false) {
                Some(i) => {
                    proof {
                        lemma_place(input@, false, 0);
                    }
                    let mut input = input;
                    input.set(i, Some(value));
                    Ok(Sponge::Absorbing(input))
                },
                None => Err(Sponge::Absorbing(input)),
            }
        },
        Sponge::Squeezing(_) => Ok(Sponge::Absorbing(start::<W, RATE>(value))),
    }
}

/// Takes the first word of an output, if one is left.
pub fn squeeze_word<W: Copy>(output: Vec<Option<W>>) -> (r: (Option<W>, Vec<Option<W>>))
    ensures
        match squeezed(output@) {
            Some((word, rest)) => r.0 == Some(word) && r.1@ == rest,
            None => r.0 is None && r.1 == output,
        },
{
    match find_place(&output, true) {
        Some(i) => {
            proof {
                lemma_place(output@, true, 0);
            }
            let word = output[i];
            let mut output = output;
            output.set(i, None);
            (word, output)
        },
        None => (None, output),
    }
}

/// One step of the duplex as a chip lays it out: the input is padded and
/// added to the state, the sum is permuted, and the output of the permuted
/// state is handed out. The chip, the state and the output after the step;
/// where the chip refuses, the state is that of the last part that it laid
/// out.
pub open spec fn duplex_step<D, P: PoseidonDuplexInstructions<D>>(
    chip: P,
    domain: D,
    state: Seq<P::Word>,
    input: Seq<Option<P::Word>>,
) -> (P, Seq<P::Word>, Result<Seq<Option<P::Word>>, Error>) {
    let padded = chip.after_add(domain, state, input);
    match chip.added(domain, state, input) {
        Err(e) => (padded, state, Err(e)),
        Ok(sum) => {
            let done = padded.after_permute(sum);
            match padded.permuted(sum) {
                Err(e) => (done, sum, Err(e)),
                Ok(next) => (done, next, Ok(done.output(next))),
            }
        },
    }
}

/// One step of the duplex: the input is padded and added to the state, the
/// state is permuted, and its output is handed out. The state is that of
/// the last step that the chip laid out.
pub fn poseidon_duplex<D, P: PoseidonDuplexInstructions<D>>(
    chip: &mut P,
    domain: &D,
    state: &mut Vec<P::Word>,
    input: &Vec<Option<P::Word>>,
) -> (r: Result<Vec<Option<P::Word>>, Error>)
    ensures
        (*final(chip), final(state)@, seen(r)) == duplex_step(
            *old(chip),
            *domain,
            old(state)@,
            input@,
        ),
{
    let added = match chip.pad_and_add(domain, state, input) {
        Ok(s) => s,
        Err(e) => {
            return Err(e);
        },
    };
    *state = added;
    let permuted = match chip.permute(state) {
        Ok(s) => s,
        Err(e) => {
            return Err(e);
        },
    };
    *state = permuted;
    Ok(chip.get_output(state))
}

/// A Poseidon duplex sponge of the given rate over a domain.
pub struct Duplex<D, P: PoseidonDuplexInstructions<D>, const RATE: usize> {
    pub sponge: Sponge<P::Word>,
    pub state: Vec<P::Word>,
    pub domain: D,
}

/// What a duplex sponge holds.
pub ghost struct DuplexView<D, W> {
    pub sponge: SpongeView<W>,
    pub state: Seq<W>,
    pub domain: D,
}

impl<D, P: PoseidonDuplexInstructions<D>, const RATE: usize> View for Duplex<D, P, RATE> {
    type V = DuplexView<D, P::Word>;

    open spec fn view(&self) -> DuplexView<D, P::Word> {
        DuplexView { sponge: self.sponge@, state: self.state@, domain: self.domain }
    }
}

/// A rate of `rate` places that holds nothing.
pub open spec fn nothing<W>(rate: nat) -> Seq<Option<W>> {
    Seq::new(rate, |i: int| None::<W>)
}

/// The sponge that a chip starts for a domain: it has absorbed nothing, on
/// the initial state that the chip lays out, unless the chip refuses.
pub open spec fn fresh<D, P: PoseidonDuplexInstructions<D>>(
    chip: P,
    domain: D,
    rate: nat,
) -> Result<DuplexView<D, P::Word>, Error> {
    match chip.initial(domain) {
        Ok(state) => Ok(
            DuplexView { sponge: SpongeView::Absorbing(nothing(rate)), state, domain },
        ),
        Err(e) => Err(e),
    }
}

/// What absorbing a word makes of a chip and a sponge. A rate that has
/// room takes the word, and a sponge that was being squeezed starts over
/// with it; the chip is not asked. A rate that is full goes through a step
/// of the duplex, after which the sponge starts over with the word; where
/// the chip refuses the step, the rate stays as it is.
pub open spec fn absorb_step<D, P: PoseidonDuplexInstructions<D>>(
    chip: P,
    duplex: DuplexView<D, P::Word>,
    value: P::Word,
    rate: nat,
) -> (P, DuplexView<D, P::Word>, Result<(), Error>) {
    match absorbed(duplex.sponge, value, rate) {
        Some(next) => (chip, DuplexView { sponge: next, ..duplex }, Ok(())),
        None => {
            let step = duplex_step(chip, duplex.domain, duplex.state, duplex.sponge->Absorbing_0);
            match step.2 {
                Ok(_) => (
                    step.0,
                    DuplexView {
                        sponge: SpongeView::Absorbing(started(value, rate)),
                        state: step.1,
                        domain: duplex.domain,
                    },
                    Ok(()),
                ),
                Err(e) => (step.0, DuplexView { state: step.1, ..duplex }, Err(e)),
            }
        },
    }
}

/// What a sponge hands to the duplex when a word is squeezed and none is
/// ready: what it has absorbed, or nothing where its output is used up.
pub open spec fn pending<W>(sponge: SpongeView<W>, rate: nat) -> Seq<Option<W>> {
    match sponge {
        SpongeView::Absorbing(input) => input,
        SpongeView::Squeezing(_) => nothing(rate),
    }
}

/// What squeezing a word makes of a chip and a sponge. An output that has
/// a word left gives its first; the chip is not asked. Else what is pending
/// goes through a step of the duplex, and the new output gives its first
/// word. Where the chip refuses the step, what was pending is kept as
/// absorbed; an output without a word is a failure of synthesis and leaves
/// a sponge that has absorbed nothing.
pub open spec fn squeeze_step<D, P: PoseidonDuplexInstructions<D>>(
    chip: P,
    duplex: DuplexView<D, P::Word>,
    rate: nat,
) -> (P, DuplexView<D, P::Word>, Result<P::Word, Error>) {
    match ready(duplex.sponge) {
        Some((word, rest)) => (
            chip,
            DuplexView { sponge: SpongeView::Squeezing(rest), ..duplex },
            Ok(word),
        ),
        None => {
            let input = pending(duplex.sponge, rate);
            let step = duplex_step(chip, duplex.domain, duplex.state, input);
            let sponge = match step.2 {
                Err(_) => SpongeView::Absorbing(input),
                Ok(output) => match squeezed(output) {
                    Some((_, rest)) => SpongeView::Squeezing(rest),
                    None => SpongeView::Absorbing(nothing(rate)),
                },
            };
            let word = match step.2 {
                Err(e) => Err(e),
                Ok(output) => match squeezed(output) {
                    Some((word, _)) => Ok(word),
                    None => Err(Error::Synthesis),
                },
            };
            (step.0, DuplexView { sponge, state: step.1, domain: duplex.domain }, word)
        },
    }
}

impl<D, P: PoseidonDuplexInstructions<D>, const RATE: usize> Duplex<D, P, RATE> {
    /// A sponge that has absorbed nothing, on the initial state that the
    /// chip lays out for the domain; the chip's refusal is handed on.
    pub fn new(chip: &mut P, domain: D) -> (r: Result<Self, Error>)
        ensures
            *final(chip) == old(chip).after_initial(domain),
            (match r {
                Ok(duplex) => Ok(duplex@),
                Err(e) => Err(e),
            }) == fresh(*old(chip), domain, RATE as nat),
    {
        match chip.initial_state(&domain) {
            Ok(state) => Ok(
                Duplex { sponge: Sponge::Absorbing(empty::<P::Word, RATE>()), state, domain },
            ),
            Err(e) => Err(e),
        }
    }

    /// Absorbs a word into the sponge. A rate that has room takes the word,
    /// and a sponge that was being squeezed starts over with it; neither
    /// needs the chip. A rate that is full is first permuted into the
    /// state, which the chip may refuse.
    pub fn absorb(&mut self, chip: &mut P, value: P::Word) -> (r: Result<(), Error>)
        ensures
            (*final(chip), final(self)@, r) == absorb_step(
                *old(chip),
                old(self)@,
                value,
                RATE as nat,
            ),
    {
        let mut sponge = Sponge::Absorbing(Vec::new());
        core::mem::swap(&mut sponge, &mut self.sponge);
        match absorb_word::<P::Word, RATE>(sponge, value) {
            Ok(next) => {
                self.sponge = next;
                Ok(())
            },
            Err(full) => {
                let r = match &full {
                    Sponge::Absorbing(input) => poseidon_duplex(
                        chip,
                        &self.domain,
                        &mut self.state,
                        input,
                    ),
                    Sponge::Squeezing(_) => Ok(Vec::new()),
                };
                match r {
                    Ok(_) => {
                        self.sponge = Sponge::Absorbing(start::<P::Word, RATE>(value));
                        Ok(())
                    },
                    Err(e) => {
                        self.sponge = full;
                        Err(e)
                    },
                }
            },
        }
    }

    /// Squeezes a word from the sponge. An output that has a word left
    /// gives its first, without the chip. Else the rate is permuted into
    /// the state, which the chip may refuse, and the new output gives its
    /// first word; an output without a word is a failure of synthesis.
    pub fn squeeze(&mut self, chip: &mut P) -> (r: Result<P::Word, Error>)
        ensures
            (*final(chip), final(self)@, r) == squeeze_step(*old(chip), old(self)@, RATE as nat),
    {
        let mut sponge = Sponge::Absorbing(Vec::new());
        core::mem::swap(&mut sponge, &mut self.sponge);
        let input = match sponge {
            Sponge::Squeezing(output) => {
                let (word, rest) = squeeze_word(output);
                match word {
                    Some(w) => {
                        self.sponge = Sponge::Squeezing(rest);
                        return Ok(w);
                    },
                    None => empty::<P::Word, RATE>(),
                }
            },
            Sponge::Absorbing(input) => input,
        };
        match poseidon_duplex(chip, &self.domain, &mut self.state, &input) {
            Err(e) => {
                self.sponge = Sponge::Absorbing(input);
                Err(e)
            },
            Ok(output) => {
                let (word, rest) = squeeze_word(output);
                match word {
                    Some(w) => {
                        self.sponge = Sponge::Squeezing(rest);
                        Ok(w)
                    },
                    None => {
                        self.sponge = Sponge::Absorbing(empty::<P::Word, RATE>());
                        Err(Error::Synthesis)
                    },
                }
            },
        }
    }
}

/// A Poseidon hash function, built around a duplex sponge.
pub struct Hash<D, P: PoseidonDuplexInstructions<D>, const RATE: usize> {
    pub duplex: Duplex<D, P, RATE>,
}

/// What hashing a message makes of a chip and a sponge: the words are
/// absorbed in their order, the first refusal of the chip is handed on, and
/// after the last word one word is squeezed. The chip after the hash, and
/// the word.
pub open spec fn hashed<D, P: PoseidonDuplexInstructions<D>>(
    chip: P,
    duplex: DuplexView<D, P::Word>,
    message: Seq<P::Word>,
    rate: nat,
) -> (P, Result<P::Word, Error>)
    decreases message.len(),
{
    if message.len() == 0 {
        let step = squeeze_step(chip, duplex, rate);
        (step.0, step.2)
    } else {
        let step = absorb_step(chip, duplex, message[0], rate);
        match step.2 {
            Err(e) => (step.0, Err(e)),
            Ok(_) => hashed(step.0, step.1, message.drop_first(), rate),
        }
    }
}

impl<D, P: PoseidonDuplexInstructions<D>, const RATE: usize> Hash<D, P, RATE> {
    /// A hasher that has absorbed nothing, on the initial state that the
    /// chip lays out for the domain; the chip's refusal is handed on.
    pub fn init(chip: &mut P, domain: D) -> (r: Result<Self, Error>)
        ensures
            *final(chip) == old(chip).after_initial(domain),
            (match r {
                Ok(hash) => Ok(hash.duplex@),
                Err(e) => Err(e),
            }) == fresh(*old(chip), domain, RATE as nat),
    {
        match Duplex::new(chip, domain) {
            Ok(duplex) => Ok(Hash { duplex }),
            Err(e) => Err(e),
        }
    }

    /// Hashes the message: its words are absorbed in their order, and one
    /// word is squeezed.
    pub fn hash(self, chip: &mut P, message: &Vec<P::Word>) -> (r: Result<P::Word, Error>)
        ensures
            (*final(chip), r) == hashed(*old(chip), self.duplex@, message@, RATE as nat),
    {
        let ghost whole = hashed(*chip, self.duplex@, message@, RATE as nat);
        let mut duplex = self.duplex;
        let mut i: usize = 0;
        proof {
            assert(message@.skip(0) =~= message@);
        }
        while i < message.len()
            invariant
                i <= message.len(),
                whole == hashed(*old(chip), self.duplex@, message@, RATE as nat),
                hashed(*chip, duplex@, message@.skip(i as int), RATE as nat) == whole,
            decreases message.len() - i,
        {
            proof {
                assert(message@.skip(i as int).drop_first() =~= message@.skip(i + 1));
                assert(message@.skip(i as int)[0] == message@[i as int]);
            }
            match duplex.absorb(chip, message[i]) {
                Ok(()) => {},
                Err(e) => {
                    return Err(e);
                },
            }
            i = i + 1;
        }
        duplex.squeeze(chip)
    }
}

} // verus!
