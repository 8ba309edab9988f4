//! The configuration: an append-only list of names and values, filled once
//! at startup.

use crate::text::{bytes_eq, pair_seqs};
use vstd::prelude::*;

verus! {

/// The value of the first pair from index `from` on whose name is `key`.
pub open spec fn value_from(pairs: Seq<(Seq<u8>, Seq<u8>)>, key: Seq<u8>, from: int) -> Option<
    Seq<u8>,
>
    decreases pairs.len() - from,
{
    if from < 0 || from >= pairs.len() {
        None
    } else if pairs[from].0 == key {
        Some(pairs[from].1)
    } else {
        value_from(pairs, key, from + 1)
    }
}

/// The value that the configuration holds for `key`: that of the first pair
/// of that name.
pub open spec fn config_value(pairs: Seq<(Seq<u8>, Seq<u8>)>, key: Seq<u8>) -> Option<Seq<u8>> {
    value_from(pairs, key, 0)
}

/// A pair that is appended changes no value that the configuration held:
/// it gives its name a value only where the name had none.
pub proof fn lemma_first_value_stays(
    pairs: Seq<(Seq<u8>, Seq<u8>)>,
    key: Seq<u8>,
    pair: (Seq<u8>, Seq<u8>),
)
    ensures
        config_value(pairs.push(pair), key) == (match config_value(pairs, key) {
            Some(v) => Some(v),
            None => if pair.0 == key {
                Some(pair.1)
            } else {
                None
            },
        }),
{
    lemma_value_from_push(pairs, key, pair, 0);
}

proof fn lemma_value_from_push(
    pairs: Seq<(Seq<u8>, Seq<u8>)>,
    key: Seq<u8>,
    pair: (Seq<u8>, Seq<u8>),
    from: int,
)
    requires
        0 <= from <= pairs.len(),
    ensures
        value_from(pairs.push(pair), key, from) == (match value_from(pairs, key, from) {
            Some(v) => Some(v),
            None => if pair.0 == key {
                Some(pair.1)
            } else {
                None
            },
        }),
    decreases pairs.len() - from,
{
    if from < pairs.len() {
        assert(pairs.push(pair)[from] == pairs[from]);
        lemma_value_from_push(pairs, key, pair, from + 1);
    } else {
        assert(pairs.push(pair)[from] == pair);
        assert(value_from(pairs.push(pair), key, from + 1) is None);
    }
}

/// Pairs of name and value, in the order in which they were pushed.
pub struct GlobalConfig {
    data: Vec<(Vec<u8>, Vec<u8>)>,
}

impl View for GlobalConfig {
    type V = Seq<(Seq<u8>, Seq<u8>)>;

    closed spec fn view(&self) -> Seq<(Seq<u8>, Seq<u8>)> {
        pair_seqs(self.data@)
    }
}

impl GlobalConfig {
    /// A configuration without pairs.
    pub fn new() -> (r: GlobalConfig)
        ensures
            r@ == Seq::<(Seq<u8>, Seq<u8>)>::empty(),
    {
        let r = GlobalConfig { data: Vec::new() };
        assert(r@ =~= Seq::<(Seq<u8>, Seq<u8>)>::empty());
        r
    }

    /// Appends a pair.
    pub fn push(&mut self, input: (Vec<u8>, Vec<u8>))
        ensures
            final(self)@ == old(self)@.push((input.0@, input.1@)),
    {
        self.data.push(input);
        assert(self@ =~= old(self)@.push((input.0@, input.1@)));
    }

    /// Whether a pair of that name was pushed.
    pub fn contains(&self, key: &[u8]) -> (r: bool)
        ensures
            r == config_value(self@, key@).is_some(),
    {
        self.get_val(key).is_some()
    }

    /// The value of the first pair of that name.
    pub fn get_val(&self, key: &[u8]) -> (r: Option<&Vec<u8>>)
        ensures
            match r {
                Some(v) => config_value(self@, key@) == Some(v@),
                None => config_value(self@, key@) is None,
            },
    {
        let mut i: usize = 0;
        while i < self.data.len()
            invariant
                i <= self.data@.len(),
                config_value(self@, key@) == value_from(self@, key@, i as int),
            decreases self.data@.len() - i,
        {
            assert(self@[i as int] == (self.data@[i as int].0@, self.data@[i as int].1@));
            if bytes_eq(self.data[i].0.as_slice(), key) {
                return Some(&self.data[i].1);
            }
            i += 1;
        }
        None
    }
}

} // verus!
