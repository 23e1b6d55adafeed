//! Key maps: per-mode rewrites from one key sequence to another, with
//! prefix detection so partially typed sequences can wait for more keys.

use vstd::prelude::*;

use crate::key::{Key, KeyParseAllError, KeyParser};
use crate::mode::ModeKind;

verus! {

/// How a typed key sequence relates to the mode's maps.
pub enum MatchResult {
    NoMatch,
    Prefix,
    ReplaceWith(Vec<Key>),
}

/// Which side of a mapping failed to parse.
#[derive(Debug, Clone, Copy, PartialEq, Eq, Structural)]
pub enum ParseKeyMapError {
    From(KeyParseAllError),
    To(KeyParseAllError),
}

struct KeyMap {
    from: Vec<Key>,
    to: Vec<Key>,
}

/// All key maps, grouped by the mode they apply in.
pub struct KeyMapCollection {
    maps: Vec<(ModeKind, Vec<KeyMap>)>,
}

impl KeyMapCollection {
    pub closed spec fn group_count(&self) -> int {
        self.maps@.len() as int
    }

    pub fn new() -> (r: Self)
        ensures
            r.group_count() == 0,
    {
        Self { maps: Vec::new() }
    }

    /// Parse both sides of a mapping and install it for `mode`, replacing
    /// an earlier mapping with the same left-hand side.
    pub fn parse_and_map(&mut self, mode: ModeKind, from: &[char], to: &[char])
        -> (r: Result<(), ParseKeyMapError>)
    {
        let from_keys = match parse_all_keys(from) {
            Ok(keys) => keys,
            Err(error) => {
                return Err(ParseKeyMapError::From(error));
            }
        };
        let to_keys = match parse_all_keys(to) {
            Ok(keys) => keys,
            Err(error) => {
                return Err(ParseKeyMapError::To(error));
            }
        };

        let mut gi: usize = 0;
        let gn = self.maps.len();
        while gi < gn
            invariant
                gi <= gn,
                gn == self.maps@.len(),
            decreases gn - gi,
        {
            if self.maps[gi].0 == mode {
                let group_len = self.maps[gi].1.len();
                let mut mi: usize = 0;
                while mi < group_len
                    invariant
                        mi <= group_len,
                        gi < self.maps@.len(),
                        group_len <= self.maps@[gi as int].1@.len(),
                    decreases group_len - mi,
                {
                    if keys_eq(self.maps[gi].1[mi].from.as_slice(), from_keys.as_slice()) {
                        let replacement = KeyMap { from: from_keys, to: to_keys };
                        set_map(&mut self.maps, gi, mi, replacement);
                        return Ok(());
                    }
                    mi = mi + 1;
                }
                push_map(&mut self.maps, gi, KeyMap { from: from_keys, to: to_keys });
                return Ok(());
            }
            gi = gi + 1;
        }
        let group = (mode, vec![KeyMap { from: from_keys, to: to_keys }]);
        self.maps.push(group);
        Ok(())
    }

    /// How `keys` relates to the mode's maps: a full match yields the keys
    /// it rewrites to, a proper prefix asks for more keys, anything else is
    /// no match.
    pub fn matches(&self, mode: ModeKind, keys: &[Key]) -> (r: MatchResult) {
        let mut gi: usize = 0;
        let gn = self.maps.len();
        while gi < gn
            invariant
                gi <= gn,
                gn == self.maps@.len(),
            decreases gn - gi,
        {
            if self.maps[gi].0 == mode {
                let group_len = self.maps[gi].1.len();
                let mut has_prefix = false;
                let mut mi: usize = 0;
                while mi < group_len
                    invariant
                        mi <= group_len,
                        gi < self.maps@.len(),
                        group_len == self.maps@[gi as int].1@.len(),
                    decreases group_len - mi,
                {
                    let map = &self.maps[gi].1[mi];
                    if keys_prefix_of(keys, map.from.as_slice()) {
                        has_prefix = true;
                        if map.from.len() == keys.len() {
                            let to = copy_keys(map.to.as_slice());
                            return MatchResult::ReplaceWith(to);
                        }
                    }
                    mi = mi + 1;
                }
                if has_prefix {
                    return MatchResult::Prefix;
                }
                return MatchResult::NoMatch;
            }
            gi = gi + 1;
        }
        MatchResult::NoMatch
    }
}

/// Replace one mapping within a group.
fn set_map(maps: &mut Vec<(ModeKind, Vec<KeyMap>)>, gi: usize, mi: usize, map: KeyMap)
    requires
        gi < old(maps)@.len(),
        mi < old(maps)@[gi as int].1@.len(),
{
    let mut group = maps.remove(gi);
    group.1.set(mi, map);
    maps.insert(gi, group);
}

/// Append one mapping to a group.
fn push_map(maps: &mut Vec<(ModeKind, Vec<KeyMap>)>, gi: usize, map: KeyMap)
    requires
        gi < old(maps)@.len(),
{
    let mut group = maps.remove(gi);
    group.1.push(map);
    maps.insert(gi, group);
}

/// Parse a whole key sequence, or the first failure in it.
pub fn parse_all_keys(text: &[char]) -> (r: Result<Vec<Key>, KeyParseAllError>) {
    let mut parser = KeyParser::new(text);
    let mut out: Vec<Key> = Vec::new();
    loop
        invariant
            parser.measure_val() >= 0,
        decreases parser.measure_val(),
    {
        match parser.next() {
            Some(Ok(key)) => {
                out.push(key);
            }
            Some(Err(error)) => {
                return Err(error);
            }
            None => {
                return Ok(out);
            }
        }
    }
}

/// Whether every key of `keys` equals the corresponding key of `from`.
fn keys_prefix_of(keys: &[Key], from: &[Key]) -> (r: bool) {
    let mut i: usize = 0;
    let a = keys.len();
    let b = from.len();
    let n = if a < b {
        a
    } else {
        b
    };
    while i < n
        invariant
            i <= n,
            n <= keys@.len(),
            n <= from@.len(),
        decreases n - i,
    {
        if keys[i] != from[i] {
            return false;
        }
        i = i + 1;
    }
    true
}

fn keys_eq(a: &[Key], b: &[Key]) -> (r: bool) {
    if a.len() != b.len() {
        return false;
    }
    let mut i: usize = 0;
    while i < a.len()
        invariant
            a@.len() == b@.len(),
            i <= a@.len(),
        decreases a@.len() - i,
    {
        if a[i] != b[i] {
            return false;
        }
        i = i + 1;
    }
    true
}

fn copy_keys(keys: &[Key]) -> (r: Vec<Key>)
    ensures
        r@ == keys@,
{
    let mut r: Vec<Key> = Vec::new();
    let mut i: usize = 0;
    while i < keys.len()
        invariant
            i <= keys@.len(),
            r@ == keys@.take(i as int),
        decreases keys@.len() - i,
    {
        r.push(keys[i]);
        proof {
            assert(r@ =~= keys@.take(i + 1 as int));
        }
        i = i + 1;
    }
    proof {
        assert(keys@.take(keys@.len() as int) =~= keys@);
    }
    r
}

} // verus!
