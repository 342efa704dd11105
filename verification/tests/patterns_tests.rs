use lib::patterns::{Pat, PatternTable, C, F_FIVE, F_FOUR, F_FREE_THREE, F_OPEN_FOUR, F_THREE, TABLE_SIZE, W};

/// Decode a base-3 `code` into 9 trits, w[0] is the cell furthest in the
/// negative direction, w[4] is the center, w[8] is furthest positive.
fn decode(mut code: u32) -> [u8; W] {
    let mut w = [0u8; W];
    for slot in w.iter_mut() {
        *slot = (code % 3) as u8;
        code /= 3;
    }
    w
}

/// Deliberately naive, unoptimized oracle. Re-derives flags/score from
/// scratch for a single window using straightforward scanning, so it
/// shares no logic (and therefore no bugs) with `PatternTable::build`.
fn naive_classify(w: [u8; W]) -> Pat {
    if w[C] != 1 {
        return Pat::default();
    }
    // contiguous run through the center
    let mut l = C;
    while l > 0 && w[l - 1] == 1 {
        l -= 1;
    }
    let mut r = C;
    while r < W - 1 && w[r + 1] == 1 {
        r += 1;
    }
    let n = r - l + 1;

    let mut flags = 0u8;
    if n >= 5 {
        flags |= F_FIVE;
    } else {
        let open_left = l == 0 || w[l - 1] == 0;
        let open_right = r == W - 1 || w[r + 1] == 0;
        if n == 4 {
            flags |= if open_left && open_right { F_OPEN_FOUR } else { F_FOUR };
        } else if n == 3 && (open_left || open_right) {
            flags |= F_THREE;
        }
    }

    // constructive four: fill one empty cell, check for a 5-run through C
    if flags & F_FIVE == 0 {
        for e in 0..W {
            if w[e] != 0 {
                continue;
            }
            let mut w2 = w;
            w2[e] = 1;
            let mut l2 = C;
            while l2 > 0 && w2[l2 - 1] == 1 {
                l2 -= 1;
            }
            let mut r2 = C;
            while r2 < W - 1 && w2[r2 + 1] == 1 {
                r2 += 1;
            }
            if r2 - l2 + 1 >= 5 {
                flags |= F_FOUR;
                break;
            }
        }
    }

    // constructive free-three: fill one empty cell in 1..=7, check for
    // an *open* four (exactly 4, both ends empty) through the center
    if flags & (F_FIVE | F_FOUR | F_OPEN_FOUR) == 0 {
        for e in 1..=7 {
            if w[e] != 0 {
                continue;
            }
            let mut w2 = w;
            w2[e] = 1;
            let mut l2 = C;
            while l2 > 0 && w2[l2 - 1] == 1 {
                l2 -= 1;
            }
            let mut r2 = C;
            while r2 < W - 1 && w2[r2 + 1] == 1 {
                r2 += 1;
            }
            let n2 = r2 - l2 + 1;
            let open_left2 = l2 == 0 || w2[l2 - 1] == 0;
            let open_right2 = r2 == W - 1 || w2[r2 + 1] == 0;
            if n2 == 4 && open_left2 && open_right2 {
                flags |= F_FREE_THREE;
                break;
            }
        }
    }

    let score = if flags & F_FIVE != 0 {
        10_000_000
    } else if flags & F_OPEN_FOUR != 0 {
        500_000
    } else if flags & F_FOUR != 0 {
        50_000
    } else if flags & F_FREE_THREE != 0 {
        20_000
    } else if flags & F_THREE != 0 {
        2_000
    } else if n == 2 {
        let open_left = l == 0 || w[l - 1] == 0;
        let open_right = r == W - 1 || w[r + 1] == 0;
        if open_left && open_right { 300 } else if open_left || open_right { 50 } else { 0 }
    } else if n == 1 {
        let open_left = l == 0 || w[l - 1] == 0;
        let open_right = r == W - 1 || w[r + 1] == 0;
        if open_left && open_right { 5 } else { 0 }
    } else {
        0
    };

    Pat { score, flags }
}

#[test]
fn table_matches_naive_oracle_on_all_codes() {
    let table = PatternTable::build();
    for code in 0..TABLE_SIZE as u32 {
        let w = decode(code);
        let expected = naive_classify(w);
        let actual = table.get(code);
        assert_eq!(
            actual, expected,
            "mismatch at code {code} (window {w:?})"
        );
    }
}
