use orchard::ecc::error::Error;
use vstd::seq::Seq;
use orchard::poseidon::{
    absorb_word, find_place, squeeze_word, start, Duplex, PoseidonDuplexInstructions,
    PoseidonInstructions, Sponge,
};

/// A chip that only counts: the permutation doubles every word and adds
/// one, the input is added to the first words of the state, and the output
/// is the first two words.
struct Counting {
    permutations: usize,
    refuse: bool,
    mute: bool,
}

impl Counting {
    fn new() -> Self {
        Counting { permutations: 0, refuse: false, mute: false }
    }
}

/// What stands in the place of the functions that say to the verifier what
/// the chip gives: they are never run.
fn not_run<T>() -> T {
    unreachable!("a function of the verifier is not run")
}

impl PoseidonInstructions for Counting {
    type Word = u64;

    fn permuted(&self, _: Seq<u64>) -> Result<Seq<u64>, Error> {
        not_run()
    }

    fn after_permute(&self, _: Seq<u64>) -> Self {
        not_run()
    }

    fn permute(&mut self, initial_state: &Vec<u64>) -> Result<Vec<u64>, Error> {
        if self.refuse {
            return Err(Error::Synthesis);
        }
        self.permutations += 1;
        Ok(initial_state.iter().map(|w| 2 * w + 1).collect())
    }
}

impl PoseidonDuplexInstructions<u64> for Counting {
    fn initial(&self, _: u64) -> Result<Seq<u64>, Error> {
        not_run()
    }

    fn after_initial(&self, _: u64) -> Self {
        not_run()
    }

    fn added(&self, _: u64, _: Seq<u64>, _: Seq<Option<u64>>) -> Result<Seq<u64>, Error> {
        not_run()
    }

    fn after_add(&self, _: u64, _: Seq<u64>, _: Seq<Option<u64>>) -> Self {
        not_run()
    }

    fn output(&self, _: Seq<u64>) -> Seq<Option<u64>> {
        not_run()
    }

    fn initial_state(&mut self, domain: &u64) -> Result<Vec<u64>, Error> {
        Ok(vec![0, 0, *domain])
    }

    fn pad_and_add(
        &mut self,
        _domain: &u64,
        initial_state: &Vec<u64>,
        input: &Vec<Option<u64>>,
    ) -> Result<Vec<u64>, Error> {
        let mut state = initial_state.clone();
        for (word, entry) in state.iter_mut().zip(input.iter()) {
            *word += entry.unwrap_or(0);
        }
        Ok(state)
    }

    fn get_output(&self, state: &Vec<u64>) -> Vec<Option<u64>> {
        if self.mute {
            return vec![None, None];
        }
        state.iter().take(2).map(|w| Some(*w)).collect()
    }
}

fn absorbing(sponge: &Sponge<u64>) -> Option<Vec<Option<u64>>> {
    match sponge {
        Sponge::Absorbing(input) => Some(input.clone()),
        Sponge::Squeezing(_) => None,
    }
}

fn squeezing(sponge: &Sponge<u64>) -> Option<Vec<Option<u64>>> {
    match sponge {
        Sponge::Squeezing(output) => Some(output.clone()),
        Sponge::Absorbing(_) => None,
    }
}

#[test]
fn a_rate_with_room_takes_a_word() {
    let mut chip = Counting::new();
    let mut duplex = Duplex::<u64, Counting, 2>::new(&mut chip, 9).unwrap();
    assert_eq!(duplex.state, vec![0, 0, 9]);
    assert_eq!(absorbing(&duplex.sponge), Some(vec![None, None]));
    assert_eq!(duplex.absorb(&mut chip, 5), Ok(()));
    assert_eq!(absorbing(&duplex.sponge), Some(vec![Some(5), None]));
    assert_eq!(duplex.absorb(&mut chip, 6), Ok(()));
    assert_eq!(absorbing(&duplex.sponge), Some(vec![Some(5), Some(6)]));
    assert_eq!(chip.permutations, 0);
    assert_eq!(duplex.state, vec![0, 0, 9]);
}

#[test]
fn a_full_rate_is_permuted_into_the_state() {
    let mut chip = Counting::new();
    let mut duplex = Duplex::<u64, Counting, 2>::new(&mut chip, 9).unwrap();
    for word in [5, 6, 7] {
        assert_eq!(duplex.absorb(&mut chip, word), Ok(()));
    }
    assert_eq!(chip.permutations, 1);
    assert_eq!(duplex.state, vec![11, 13, 19]);
    assert_eq!(absorbing(&duplex.sponge), Some(vec![Some(7), None]));
}

#[test]
fn words_are_squeezed_in_their_order() {
    let mut chip = Counting::new();
    let mut duplex = Duplex::<u64, Counting, 2>::new(&mut chip, 9).unwrap();
    assert_eq!(duplex.absorb(&mut chip, 5), Ok(()));
    assert_eq!(duplex.squeeze(&mut chip), Ok(11));
    assert_eq!(chip.permutations, 1);
    assert_eq!(squeezing(&duplex.sponge), Some(vec![None, Some(1)]));
    assert_eq!(duplex.squeeze(&mut chip), Ok(1));
    assert_eq!(chip.permutations, 1);
    assert_eq!(squeezing(&duplex.sponge), Some(vec![None, None]));
    // nothing is left: an empty rate is permuted
    assert_eq!(duplex.squeeze(&mut chip), Ok(23));
    assert_eq!(chip.permutations, 2);
    assert_eq!(duplex.state, vec![23, 3, 39]);
}

#[test]
fn absorbing_drops_what_was_left_to_squeeze() {
    let mut chip = Counting::new();
    let mut duplex = Duplex::<u64, Counting, 2>::new(&mut chip, 9).unwrap();
    assert_eq!(duplex.squeeze(&mut chip), Ok(1));
    assert_eq!(squeezing(&duplex.sponge), Some(vec![None, Some(1)]));
    assert_eq!(duplex.absorb(&mut chip, 4), Ok(()));
    assert_eq!(absorbing(&duplex.sponge), Some(vec![Some(4), None]));
    assert_eq!(chip.permutations, 1);
}

#[test]
fn a_chip_that_refuses_leaves_the_rate() {
    let mut chip = Counting::new();
    let mut duplex = Duplex::<u64, Counting, 2>::new(&mut chip, 9).unwrap();
    assert_eq!(duplex.absorb(&mut chip, 5), Ok(()));
    assert_eq!(duplex.absorb(&mut chip, 6), Ok(()));
    chip.refuse = true;
    assert_eq!(duplex.absorb(&mut chip, 7), Err(Error::Synthesis));
    assert_eq!(absorbing(&duplex.sponge), Some(vec![Some(5), Some(6)]));
    assert_eq!(duplex.squeeze(&mut chip), Err(Error::Synthesis));
    assert_eq!(absorbing(&duplex.sponge), Some(vec![Some(5), Some(6)]));
}

#[test]
fn an_output_without_a_word_fails() {
    let mut chip = Counting::new();
    chip.mute = true;
    let mut duplex = Duplex::<u64, Counting, 2>::new(&mut chip, 9).unwrap();
    assert_eq!(duplex.squeeze(&mut chip), Err(Error::Synthesis));
    assert_eq!(absorbing(&duplex.sponge), Some(vec![None, None]));
}

#[test]
fn a_message_is_absorbed_and_one_word_squeezed() {
    let mut chip = Counting::new();
    let hash = orchard::poseidon::Hash::<u64, Counting, 2>::init(&mut chip, 9).unwrap();
    // 5 and 6 are permuted in when 7 comes, and 7 when the word is squeezed
    assert_eq!(hash.hash(&mut chip, &vec![5, 6, 7]), Ok(2 * (11 + 7) + 1));
    assert_eq!(chip.permutations, 2);
    let mut chip = Counting::new();
    let hash = orchard::poseidon::Hash::<u64, Counting, 2>::init(&mut chip, 9).unwrap();
    assert_eq!(hash.hash(&mut chip, &vec![]), Ok(1));
}

#[test]
fn the_first_place_is_found() {
    assert_eq!(find_place(&vec![Some(1u8), None, Some(3), None], false), Some(1));
    assert_eq!(find_place(&vec![Some(1u8), None, Some(3), None], true), Some(0));
    assert_eq!(find_place(&vec![None::<u8>, None], true), None);
    assert_eq!(find_place(&Vec::<Option<u8>>::new(), false), None);
    assert_eq!(start::<u8, 3>(7), vec![Some(7), None, None]);
    assert_eq!(squeeze_word(vec![None, Some(4u8), Some(5)]), (Some(4), vec![None, None, Some(5)]));
    assert_eq!(squeeze_word(vec![None::<u8>, None]), (None, vec![None, None]));
    let full = Sponge::Absorbing(vec![Some(1u64), Some(2)]);
    assert!(matches!(absorb_word::<u64, 2>(full, 3), Err(Sponge::Absorbing(_))));
}
