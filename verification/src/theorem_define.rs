//! The theorems the solver applies, each written as a lattice of the hints and edges it
//! expects, a `!` column, and the same lattice with the edges that follow from them.
//! Lowercase and uppercase letters name cells: the same letter means the same side, the
//! same letter in the other case means the other side.
use vstd::prelude::*;

verus! {

/// Theorem definition 0.
pub const THEOREM_00: &'static str = "
+ + ! +x+
 0  ! x0x
+ + ! +x+
";

/// Theorem definition 1.
pub const THEOREM_01: &'static str = "
+ + + + ! + + + +
        !   | x
+ + + + ! +x+-+x+
 0 3    ! x0x3|
+ + + + ! +x+-+x+
        !   | x
+ + + + ! + + + +
";

/// Theorem definition 2.
pub const THEOREM_02: &'static str = "
+ + + + ! +x+ + +
 0      ! x0x
+ + + + ! +x+-+ +
   3    !   |3 a
+ + + + ! + + + +
        !    A
+ + + + ! + + + +
";

/// Theorem definition 3.
pub const THEOREM_03: &'static str = "
+ + + ! + + +
      !   xa
+ + + ! + + +
 3 3  ! |3|3|
+ + + ! + + +
      !   xA
+ + + ! + + +
";

/// Theorem definition 4.
pub const THEOREM_04: &'static str = "
+ + + ! +-+ +
 2    !  2xa
+ + + ! + + +
 3 3  ! |3|3|
+ + + ! + + +
      !   xA
+ + + ! + + +
";

/// Theorem definition 5.
pub const THEOREM_05: &'static str = "
+ + + + + ! + + + + +
          !   x
+ + + + + ! +x+-+ + +
   3      !   |3 a
+ + + + + ! + + + + +
     3    !    A 3|
+ + + + + ! + + +-+x+
          !       x
+ + + + + ! + + + + +
";

/// Theorem definition 6.
pub const THEOREM_06: &'static str = "
+ + + + + + ! + + + + + +
            !   x     x
+ + + + + + ! +x+-+x+-+x+
   3   3    !   |3 a 3|
+ + + + + + ! + + + + + +
     3      !    A|3|A
+ + + + + + ! + +x+-+x+ +
            !     x x
+ + + + + + ! + + + + + +
";

/// Theorem definition 7.
pub const THEOREM_07: &'static str = "
+ + + + ! + +x+ +
  | |   !   | |
+ +-+ + ! +x+-+x+
        !   x x
+ + + + ! + + + +
";

/// Theorem definition 8.
pub const THEOREM_08: &'static str = "
+-+ ! +-+
 1  ! x1x
+ + ! +x+
";

/// Theorem definition 9.
pub const THEOREM_09: &'static str = "
+ + ! +-+
x1x ! x1x
+x+ ! +x+
";

/// Theorem definition 10.
pub const THEOREM_10: &'static str = "
+ + + ! +x+ +
 2|   ! x2|
+-+ + ! +-+x+
      !   x
+ + + ! + + +
";

/// Theorem definition 11.
pub const THEOREM_11: &'static str = "
+ + ! +x+
|2| ! |2|
+ + ! +x+
";

/// Theorem definition 12.
pub const THEOREM_12: &'static str = "
+x+ + ! +x+ +
x2    ! x2|
+ + + ! +-+x+
      !   x
+ + + ! + + +
";

/// Theorem definition 13.
pub const THEOREM_13: &'static str = "
+x+ ! +x+
 2  ! |2|
+x+ ! +x+
";

/// Theorem definition 14.
pub const THEOREM_14: &'static str = "
+ + + + ! + +x+ +
  |3|   !   |3|
+ +-+ + ! +x+-+x+
        !   x x
+ + + + ! + + + +
";

/// Theorem definition 15.
pub const THEOREM_15: &'static str = "
+ +x+ + ! + +x+ +
   3    !   |3|
+ + + + ! +x+-+x+
        !   x x
+ + + + ! + + + +
";

/// Theorem definition 16.
pub const THEOREM_16: &'static str = "
+ + + ! + + +
      !   x
+-+ + ! +-+x+
  |   !   |
+ + + ! + + +
";

/// Theorem definition 17.
pub const THEOREM_17: &'static str = "
+ + + ! + + +
      !   x
+-+-+ ! +-+-+
      !   x
+ + + ! + + +
";

/// Theorem definition 18.
pub const THEOREM_18: &'static str = "
+ + + + ! + + + +
   a    !    a
+ + + + ! + +x+ +
 a 1    !  ax1 b
+ + + + ! + + + +
        !    B
+ + + + ! + + + +
";

/// Theorem definition 19.
pub const THEOREM_19: &'static str = "
+ + + + ! + + + +
   a    !    a
+ + + + ! + + + +
 a 2    !  a 2 A
+ + + + ! + + + +
        !    A
+ + + + ! + + + +
";

/// Theorem definition 20.
pub const THEOREM_20: &'static str = "
+ + + + ! + + + +
   a    !   xa
+ + + + ! +x+-+ +
 a 3    !  a|3 b
+ + + + ! + + + +
        !    B
+ + + + ! + + + +
";

/// Theorem definition 21.
pub const THEOREM_21: &'static str = "
+ + + ! + + +
   a  !    a
+ + + ! + + +
 A 1  !  A 1x
+ + + ! + +x+
";

/// Theorem definition 22.
pub const THEOREM_22: &'static str = "
+ + + + ! + + + +
   a    !    a
+ + + + ! + + + +
 A 2    !  A 2 b
+ + + + ! + + + +
        !    B
+ + + + ! + + + +
";

/// Theorem definition 23.
pub const THEOREM_23: &'static str = "
+ + + + ! + + + +
   a    !    a
+ + + + ! + + + +
 A 3    !  A 3|
+ + + + ! + +-+x+
        !     x
+ + + + ! + + + +
";

/// Theorem definition 24.
pub const THEOREM_24: &'static str = "
+ + + ! + + +
  x   !   x
+ + + ! +-+ +
 3 1  !  3 1x
+ + + ! + +x+
";

/// Theorem definition 25.
pub const THEOREM_25: &'static str = "
+ + + + + ! + + +-+ +
     2x   !    a 2x
+ + + + + ! + + + + +
   3      !   |3 A
+ + + + + ! +x+-+ + +
          !   x
+ + + + + ! + + + + +
";

/// Theorem definition 26.
pub const THEOREM_26: &'static str = "
+ + + + ! + +-+ +
   2x   !    2x
+ + +-+ ! + + +-+
   3    !   |3
+ + + + ! +x+-+ +
        !   x
+ + + + ! + + + +
";

/// Theorem definition 27.
pub const THEOREM_27: &'static str = "
+ + + ! + + +
    | !     |
+ + + ! + + +
   3  !   |3
+ + + ! +x+-+
      !   x
+ + + ! + + +
";

/// Theorem definition 28.
pub const THEOREM_28: &'static str = "
+ +  + + ! + +  + +
      a  !       a
+ +  + + ! + +  + +
   3a    !   |3a
+ +  + + ! +x+--+ +
         !   x
+ +  + + ! + +  + +
";

/// Theorem definition 29.
pub const THEOREM_29: &'static str = "
+ + + + ! + + + +
   a    !    a
+ + + + ! + +x+ +
   1    !  b 1 B
+ + + + ! + +x+ +
   a    !    a
+ + + + ! + + + +
";

/// Theorem definition 30.
pub const THEOREM_30: &'static str = "
+ + + + ! + + + +
   a    !    a
+ + + + ! + + + +
   2    !  A 2 A
+ + + + ! + + + +
   a    !    a
+ + + + ! + + + +
";

/// Theorem definition 31.
pub const THEOREM_31: &'static str = "
+ + + + ! + + + +
   a    !    a
+ + + + ! + +-+ +
   3    !  b 3 B
+ + + + ! + +-+ +
   a    !    a
+ + + + ! + + + +
";

/// Theorem definition 32.
pub const THEOREM_32: &'static str = "
+ + ! + +
 a  !  a
+ + ! + +
 1  ! x1x
+ + ! + +
 A  !  A
+ + ! + +
";

/// Theorem definition 33.
pub const THEOREM_33: &'static str = "
+ + + + ! + + + +
   a    !    a
+ + + + ! + + + +
   2    !  b 2 B
+ + + + ! + + + +
   A    !    A
+ + + + ! + + + +
";

/// Theorem definition 34.
pub const THEOREM_34: &'static str = "
+ + ! + +
 a  !  a
+ + ! + +
 3  ! |3|
+ + ! + +
 A  !  A
+ + ! + +
";

/// The theorem definitions, in order.
pub open spec fn definition_texts() -> Seq<&'static str> {
    seq![THEOREM_00, THEOREM_01, THEOREM_02, THEOREM_03, THEOREM_04, THEOREM_05, THEOREM_06, THEOREM_07, THEOREM_08, THEOREM_09, THEOREM_10, THEOREM_11, THEOREM_12, THEOREM_13, THEOREM_14, THEOREM_15, THEOREM_16, THEOREM_17, THEOREM_18, THEOREM_19, THEOREM_20, THEOREM_21, THEOREM_22, THEOREM_23, THEOREM_24, THEOREM_25, THEOREM_26, THEOREM_27, THEOREM_28, THEOREM_29, THEOREM_30, THEOREM_31, THEOREM_32, THEOREM_33, THEOREM_34]
}

/// The theorem definitions.
pub fn theorem_define() -> (r: Vec<&'static str>)
    ensures
        r@ == definition_texts(),
{
    vec![THEOREM_00, THEOREM_01, THEOREM_02, THEOREM_03, THEOREM_04, THEOREM_05, THEOREM_06, THEOREM_07, THEOREM_08, THEOREM_09, THEOREM_10, THEOREM_11, THEOREM_12, THEOREM_13, THEOREM_14, THEOREM_15, THEOREM_16, THEOREM_17, THEOREM_18, THEOREM_19, THEOREM_20, THEOREM_21, THEOREM_22, THEOREM_23, THEOREM_24, THEOREM_25, THEOREM_26, THEOREM_27, THEOREM_28, THEOREM_29, THEOREM_30, THEOREM_31, THEOREM_32, THEOREM_33, THEOREM_34]
}

} // verus!
