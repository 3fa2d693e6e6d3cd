//! The constants of SHA-256.

use vstd::prelude::*;

verus! {

/// The round constant `K[t]`.
pub open spec fn round_constant(t: int) -> u64 {
    if t == 0 {
        0x428a2f98
    } else if t == 1 {
        0x71374491
    } else if t == 2 {
        0xb5c0fbcf
    } else if t == 3 {
        0xe9b5dba5
    } else if t == 4 {
        0x3956c25b
    } else if t == 5 {
        0x59f111f1
    } else if t == 6 {
        0x923f82a4
    } else if t == 7 {
        0xab1c5ed5
    } else if t == 8 {
        0xd807aa98
    } else if t == 9 {
        0x12835b01
    } else if t == 10 {
        0x243185be
    } else if t == 11 {
        0x550c7dc3
    } else if t == 12 {
        0x72be5d74
    } else if t == 13 {
        0x80deb1fe
    } else if t == 14 {
        0x9bdc06a7
    } else if t == 15 {
        0xc19bf174
    } else if t == 16 {
        0xe49b69c1
    } else if t == 17 {
        0xefbe4786
    } else if t == 18 {
        0x0fc19dc6
    } else if t == 19 {
        0x240ca1cc
    } else if t == 20 {
        0x2de92c6f
    } else if t == 21 {
        0x4a7484aa
    } else if t == 22 {
        0x5cb0a9dc
    } else if t == 23 {
        0x76f988da
    } else if t == 24 {
        0x983e5152
    } else if t == 25 {
        0xa831c66d
    } else if t == 26 {
        0xb00327c8
    } else if t == 27 {
        0xbf597fc7
    } else if t == 28 {
        0xc6e00bf3
    } else if t == 29 {
        0xd5a79147
    } else if t == 30 {
        0x06ca6351
    } else if t == 31 {
        0x14292967
    } else if t == 32 {
        0x27b70a85
    } else if t == 33 {
        0x2e1b2138
    } else if t == 34 {
        0x4d2c6dfc
    } else if t == 35 {
        0x53380d13
    } else if t == 36 {
        0x650a7354
    } else if t == 37 {
        0x766a0abb
    } else if t == 38 {
        0x81c2c92e
    } else if t == 39 {
        0x92722c85
    } else if t == 40 {
        0xa2bfe8a1
    } else if t == 41 {
        0xa81a664b
    } else if t == 42 {
        0xc24b8b70
    } else if t == 43 {
        0xc76c51a3
    } else if t == 44 {
        0xd192e819
    } else if t == 45 {
        0xd6990624
    } else if t == 46 {
        0xf40e3585
    } else if t == 47 {
        0x106aa070
    } else if t == 48 {
        0x19a4c116
    } else if t == 49 {
        0x1e376c08
    } else if t == 50 {
        0x2748774c
    } else if t == 51 {
        0x34b0bcb5
    } else if t == 52 {
        0x391c0cb3
    } else if t == 53 {
        0x4ed8aa4a
    } else if t == 54 {
        0x5b9cca4f
    } else if t == 55 {
        0x682e6ff3
    } else if t == 56 {
        0x748f82ee
    } else if t == 57 {
        0x78a5636f
    } else if t == 58 {
        0x84c87814
    } else if t == 59 {
        0x8cc70208
    } else if t == 60 {
        0x90befffa
    } else if t == 61 {
        0xa4506ceb
    } else if t == 62 {
        0xbef9a3f7
    } else {
        0xc67178f2
    }
}

/// Word `i` of the initial hash state.
pub open spec fn initial_word(i: int) -> u64 {
    if i == 0 {
        0x6a09e667
    } else if i == 1 {
        0xbb67ae85
    } else if i == 2 {
        0x3c6ef372
    } else if i == 3 {
        0xa54ff53a
    } else if i == 4 {
        0x510e527f
    } else if i == 5 {
        0x9b05688c
    } else if i == 6 {
        0x1f83d9ab
    } else {
        0x5be0cd19
    }
}

/// The round constant `K[t]`.
pub fn round_constant_value(t: usize) -> (k: u64)
    requires
        t < 64,
    ensures
        k == round_constant(t as int),
        k <= 0xFFFF_FFFF,
{
    if t == 0 {
        0x428a2f98
    } else if t == 1 {
        0x71374491
    } else if t == 2 {
        0xb5c0fbcf
    } else if t == 3 {
        0xe9b5dba5
    } else if t == 4 {
        0x3956c25b
    } else if t == 5 {
        0x59f111f1
    } else if t == 6 {
        0x923f82a4
    } else if t == 7 {
        0xab1c5ed5
    } else if t == 8 {
        0xd807aa98
    } else if t == 9 {
        0x12835b01
    } else if t == 10 {
        0x243185be
    } else if t == 11 {
        0x550c7dc3
    } else if t == 12 {
        0x72be5d74
    } else if t == 13 {
        0x80deb1fe
    } else if t == 14 {
        0x9bdc06a7
    } else if t == 15 {
        0xc19bf174
    } else if t == 16 {
        0xe49b69c1
    } else if t == 17 {
        0xefbe4786
    } else if t == 18 {
        0x0fc19dc6
    } else if t == 19 {
        0x240ca1cc
    } else if t == 20 {
        0x2de92c6f
    } else if t == 21 {
        0x4a7484aa
    } else if t == 22 {
        0x5cb0a9dc
    } else if t == 23 {
        0x76f988da
    } else if t == 24 {
        0x983e5152
    } else if t == 25 {
        0xa831c66d
    } else if t == 26 {
        0xb00327c8
    } else if t == 27 {
        0xbf597fc7
    } else if t == 28 {
        0xc6e00bf3
    } else if t == 29 {
        0xd5a79147
    } else if t == 30 {
        0x06ca6351
    } else if t == 31 {
        0x14292967
    } else if t == 32 {
        0x27b70a85
    } else if t == 33 {
        0x2e1b2138
    } else if t == 34 {
        0x4d2c6dfc
    } else if t == 35 {
        0x53380d13
    } else if t == 36 {
        0x650a7354
    } else if t == 37 {
        0x766a0abb
    } else if t == 38 {
        0x81c2c92e
    } else if t == 39 {
        0x92722c85
    } else if t == 40 {
        0xa2bfe8a1
    } else if t == 41 {
        0xa81a664b
    } else if t == 42 {
        0xc24b8b70
    } else if t == 43 {
        0xc76c51a3
    } else if t == 44 {
        0xd192e819
    } else if t == 45 {
        0xd6990624
    } else if t == 46 {
        0xf40e3585
    } else if t == 47 {
        0x106aa070
    } else if t == 48 {
        0x19a4c116
    } else if t == 49 {
        0x1e376c08
    } else if t == 50 {
        0x2748774c
    } else if t == 51 {
        0x34b0bcb5
    } else if t == 52 {
        0x391c0cb3
    } else if t == 53 {
        0x4ed8aa4a
    } else if t == 54 {
        0x5b9cca4f
    } else if t == 55 {
        0x682e6ff3
    } else if t == 56 {
        0x748f82ee
    } else if t == 57 {
        0x78a5636f
    } else if t == 58 {
        0x84c87814
    } else if t == 59 {
        0x8cc70208
    } else if t == 60 {
        0x90befffa
    } else if t == 61 {
        0xa4506ceb
    } else if t == 62 {
        0xbef9a3f7
    } else {
        0xc67178f2
    }
}

/// Word `i` of the initial hash state.
pub fn initial_word_value(i: usize) -> (k: u64)
    requires
        i < 8,
    ensures
        k == initial_word(i as int),
        k <= 0xFFFF_FFFF,
{
    if i == 0 {
        0x6a09e667
    } else if i == 1 {
        0xbb67ae85
    } else if i == 2 {
        0x3c6ef372
    } else if i == 3 {
        0xa54ff53a
    } else if i == 4 {
        0x510e527f
    } else if i == 5 {
        0x9b05688c
    } else if i == 6 {
        0x1f83d9ab
    } else {
        0x5be0cd19
    }
}

} // verus!
