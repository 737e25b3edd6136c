//! The list of peers: a text with one `host:port` on each line.

use vstd::prelude::*;

verus! {

/// The lines of `text` that are complete, and what has been read of the
/// line that is not: a line ends at a line feed, and empty lines are
/// passed over.
pub open spec fn lines_so_far(text: Seq<u8>) -> (Seq<Seq<u8>>, Seq<u8>)
    decreases text.len(),
{
    if text.len() == 0 {
        (Seq::empty(), Seq::empty())
    } else {
        let (lines, line) = lines_so_far(text.drop_last());
        if text.last() == 10u8 {
            if line.len() > 0 {
                (lines.push(line), Seq::empty())
            } else {
                (lines, Seq::empty())
            }
        } else {
            (lines, line.push(text.last()))
        }
    }
}

/// The lines of `text` that are not empty, in order, without their line
/// feeds.
pub open spec fn peers_of(text: Seq<u8>) -> Seq<Seq<u8>> {
    let (lines, line) = lines_so_far(text);
    if line.len() > 0 {
        lines.push(line)
    } else {
        lines
    }
}

/// The peers, as sequences of bytes.
pub open spec fn peers_view(peers: Seq<Vec<u8>>) -> Seq<Seq<u8>> {
    Seq::new(peers.len(), |i: int| peers[i]@)
}

/// Reads the list of peers: each line of `text` that is not empty is one
/// peer, taken as it stands.
pub fn parse_nodes(text: &[u8]) -> (peers: Vec<Vec<u8>>)
    ensures
        peers_view(peers@) == peers_of(text@),
{
    let mut peers: Vec<Vec<u8>> = Vec::new();
    let mut line: Vec<u8> = Vec::new();
    let mut i: usize = 0;
    assert(text@.take(0) =~= Seq::<u8>::empty());
    assert(peers_view(peers@) =~= Seq::<Seq<u8>>::empty());
    while i < text.len()
        invariant
            i <= text@.len(),
            (peers_view(peers@), line@) == lines_so_far(text@.take(i as int)),
        decreases text@.len() - i,
    {
        proof {
            assert(text@.take(i + 1).drop_last() =~= text@.take(i as int));
            assert(text@.take(i + 1).last() == text@[i as int]);
        }
        let ghost before = peers_view(peers@);
        if text[i] == 10 {
            if line.len() > 0 {
                let ghost done = line@;
                peers.push(line);
                line = Vec::new();
                assert(peers_view(peers@) =~= before.push(done));
            }
        } else {
            line.push(text[i]);
        }
        i += 1;
    }
    assert(text@.take(i as int) =~= text@);
    if line.len() > 0 {
        let ghost before = peers_view(peers@);
        let ghost done = line@;
        peers.push(line);
        assert(peers_view(peers@) =~= before.push(done));
    }
    peers
}

} // verus!
