//! The colours of a palette, given as a run of channel values.

use vstd::prelude::*;

verus! {

/// The colours that a run of channel values holds: each three values in a
/// row are one colour, and what is left behind the last full colour is
/// dropped.
pub open spec fn triples_of(channels: Seq<u8>) -> Seq<Seq<u8>> {
    Seq::new(channels.len() / 3, |i: int| channels.subrange(3 * i, 3 * i + 3))
}

/// The channel values of each colour.
pub open spec fn colours_of(colours: Seq<Vec<u8>>) -> Seq<Seq<u8>> {
    Seq::new(colours.len(), |i: int| colours[i]@)
}

/// Cuts a run of channel values into colours of three values each; values
/// left over behind the last full colour are dropped.
pub fn colour_triples(channels: &[u8]) -> (colours: Vec<Vec<u8>>)
    ensures
        colours_of(colours@) == triples_of(channels@),
{
    let mut colours: Vec<Vec<u8>> = Vec::new();
    let n = channels.len();
    let mut i: usize = 0;
    while n - i >= 3
        invariant
            n == channels@.len(),
            i == 3 * colours@.len(),
            i <= n,
            colours_of(colours@) == triples_of(channels@).take(colours@.len() as int),
        decreases n - i,
    {
        let mut colour: Vec<u8> = Vec::new();
        colour.push(channels[i]);
        colour.push(channels[i + 1]);
        colour.push(channels[i + 2]);
        assert(colour@ =~= channels@.subrange(i as int, i + 3));
        let ghost before = colours_of(colours@);
        colours.push(colour);
        i += 3;
        assert(colours_of(colours@) =~= before.push(colour@));
        assert(colours_of(colours@) =~= triples_of(channels@).take(colours@.len() as int));
    }
    assert(colours@.len() == n / 3);
    assert(triples_of(channels@).take(colours@.len() as int) =~= triples_of(channels@));
    colours
}

} // verus!
