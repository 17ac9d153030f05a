//! Numbers that fit in a word have inverses in the field.
//!
//! Three elements have orders that are powers of different primes. Modulo any divisor of the
//! order of the field, other than one, the powers of their product are all different, as many
//! as the product of the three orders; so such a divisor is larger than a word.
use vstd::prelude::*;
use vstd::arithmetic::div_mod::*;
use vstd::arithmetic::power::*;
use vstd::set_lib::*;
use crate::field::{
    cong, inverse_of, invertible, lemma_inverse_from, lemma_inverse_of, lemma_modulus, modulus,
};

verus! {

/// An odd prime that divides the order of the group of units.
pub open spec fn large_prime() -> int {
    405928799
}

/// Another one.
pub open spec fn small_prime() -> int {
    983
}

/// The product of the three orders: of the two primes and of `2^28`.
pub open spec fn joint_order() -> int {
    107113265664624689152
}

/// An element whose order is a power of two.
#[verifier::opaque]
pub open spec fn even_root() -> int {
    0x2a3c09f0a58a7e8500e0a7eb8ef62abc402d111e41112ed49bd61b6e725b19f0int
}

/// An element whose order is the larger prime.
#[verifier::opaque]
pub open spec fn large_root() -> int {
    0x1f71dad7e4fb79ba1f708024c70892fa92776221871259f75b5e48a34129fe36int
}

/// An element whose order is the smaller prime.
#[verifier::opaque]
pub open spec fn small_root() -> int {
    0xfc1abc3a37f4ea9a023d3913ca1228ecfb449e0ec043785e19b9f1a7ce6a5d8int
}

/// Two numbers have the same remainder.
pub open spec fn same(a: int, b: int, d: int) -> bool {
    a % d == b % d
}

proof fn lemma_same_mul(a: int, b: int, c: int, e: int, d: int)
    requires
        d > 0,
        same(a, b, d),
        same(c, e, d),
    ensures
        same(a * c, b * e, d),
{
    lemma_mul_mod_noop(a, c, d);
    lemma_mul_mod_noop(b, e, d);
}

proof fn lemma_same_pow(a: int, b: int, e: nat, d: int)
    requires
        d > 0,
        same(a, b, d),
    ensures
        same(pow(a, e), pow(b, e), d),
{
    lemma_pow_mod_noop(a, e, d);
    lemma_pow_mod_noop(b, e, d);
}

proof fn lemma_pow_one(e: nat)
    ensures
        pow(1, e) == 1,
    decreases e,
{
    reveal(pow);
    if e > 0 {
        lemma_pow_one((e - 1) as nat);
    }
}

/// A power that is one makes every multiple of the power one.
proof fn lemma_multiple_one(x: int, e: nat, t: nat, d: int)
    requires
        d > 0,
        same(pow(x, e), 1, d),
    ensures
        same(pow(x, e * t), 1, d),
{
    lemma_pow_multiplies(x, e, t);
    lemma_same_pow(pow(x, e), 1, t, d);
    lemma_pow_one(t);
}

/// One step of working out a power.
proof fn lemma_twice(x: int, e: nat, y: int, z: int)
    requires
        cong(pow(x, e), y),
        (y * y) % modulus() == z,
    ensures
        cong(pow(x, 2 * e), z),
{
    lemma_modulus();
    lemma_pow_adds(x, e, e);
    lemma_same_mul(pow(x, e), y, pow(x, e), y, modulus());
    lemma_mod_twice(y * y, modulus());
}

/// One step of working out a power, with one more factor.
proof fn lemma_twice_more(x: int, e: nat, y: int, z: int)
    requires
        cong(pow(x, e), y),
        (y * y * x) % modulus() == z,
    ensures
        cong(pow(x, 2 * e + 1), z),
{
    lemma_modulus();
    lemma_pow_adds(x, e, e);
    lemma_pow_adds(x, 2 * e, 1);
    lemma_pow1(x);
    lemma_same_mul(pow(x, e), y, pow(x, e), y, modulus());
    lemma_same_mul(pow(x, 2 * e), y * y, x, x, modulus());
    lemma_mod_twice(y * y * x, modulus());
}

#[verifier::spinoff_prover]
#[verifier::rlimit(100)]
proof fn lemma_even_root()
    ensures
        cong(pow(even_root(), 134217728), -1),
{
    reveal(modulus);
    reveal(even_root);
    lemma_pow1(even_root());
    lemma_twice(
        even_root(),
        1,
        0x2a3c09f0a58a7e8500e0a7eb8ef62abc402d111e41112ed49bd61b6e725b19f0int,
        0x49ae702b363ebe85f256a9f6dc6e364b4823532f6437da2034afc4580928c44int,
    );
    lemma_twice(
        even_root(),
        2,
        0x49ae702b363ebe85f256a9f6dc6e364b4823532f6437da2034afc4580928c44int,
        0x1067569af1ff73b20113eff9b8d89d4a605b52b63d68f9ae1c79bd572f4e9212int,
    );
    lemma_twice(
        even_root(),
        4,
        0x1067569af1ff73b20113eff9b8d89d4a605b52b63d68f9ae1c79bd572f4e9212int,
        0x2a734ebb326341efa19b0361d9130cd47b26b7488dc6d26eeccd4f3eb878331aint,
    );
    lemma_twice(
        even_root(),
        8,
        0x2a734ebb326341efa19b0361d9130cd47b26b7488dc6d26eeccd4f3eb878331aint,
        0xc9fabc7845d50d2852e2a0371c6441f145e0db82e8326961c25f1e3e32b045bint,
    );
    lemma_twice(
        even_root(),
        16,
        0xc9fabc7845d50d2852e2a0371c6441f145e0db82e8326961c25f1e3e32b045bint,
        0x210fe635ab4c74d6b7bcf70bc23a1395680c64022dd991fb54d4506ab80c59dint,
    );
    lemma_twice(
        even_root(),
        32,
        0x210fe635ab4c74d6b7bcf70bc23a1395680c64022dd991fb54d4506ab80c59dint,
        0x1ad92f46b1f8d9a7cda0ceb68be08215ec1a1f05359eebbba76dde56a219447eint,
    );
    lemma_twice(
        even_root(),
        64,
        0x1ad92f46b1f8d9a7cda0ceb68be08215ec1a1f05359eebbba76dde56a219447eint,
        0x1ded8980ae2bdd1a4222150e8598fc8c58f50577ca5a5ce3b2c87885fcd0b523int,
    );
    lemma_twice(
        even_root(),
        128,
        0x1ded8980ae2bdd1a4222150e8598fc8c58f50577ca5a5ce3b2c87885fcd0b523int,
        0x26125da10a0ed06327508aba06d1e303ac616632dbed349f53422da953337857int,
    );
    lemma_twice(
        even_root(),
        256,
        0x26125da10a0ed06327508aba06d1e303ac616632dbed349f53422da953337857int,
        0x2260e724844bca5251829353968e4915305258418357473a5c1d597f613f6cbdint,
    );
    lemma_twice(
        even_root(),
        512,
        0x2260e724844bca5251829353968e4915305258418357473a5c1d597f613f6cbdint,
        0x19ddbcaf3a8d46c15c0176fbb5b95e4dc57088ff13f4d1bd84c6bfa57dcdc0e0int,
    );
    lemma_twice(
        even_root(),
        1024,
        0x19ddbcaf3a8d46c15c0176fbb5b95e4dc57088ff13f4d1bd84c6bfa57dcdc0e0int,
        0x1bf82deba7d74902c3708cc6e70e61f30512eca95655210e276e5858ce8f58e5int,
    );
    lemma_twice(
        even_root(),
        2048,
        0x1bf82deba7d74902c3708cc6e70e61f30512eca95655210e276e5858ce8f58e5int,
        0xeeb2cb5981ed45649abebde081dcff16c8601de4347e7dd1628ba2daac43b7int,
    );
    lemma_twice(
        even_root(),
        4096,
        0xeeb2cb5981ed45649abebde081dcff16c8601de4347e7dd1628ba2daac43b7int,
        0x2d1ba66f5941dc91017171fa69ec2bd0022a2a2d4115a009a93458fd4e26ecfbint,
    );
    lemma_twice(
        even_root(),
        8192,
        0x2d1ba66f5941dc91017171fa69ec2bd0022a2a2d4115a009a93458fd4e26ecfbint,
        0x2d965651cdd9e4811f4e51b80ddca8a8b4a93ee17420aae6adaa01c2617c6e85int,
    );
    lemma_twice(
        even_root(),
        16384,
        0x2d965651cdd9e4811f4e51b80ddca8a8b4a93ee17420aae6adaa01c2617c6e85int,
        0x6fab49b869ae62001deac878b2667bd31bf3e28e3a2d764aa49b8d9bbdd310int,
    );
    lemma_twice(
        even_root(),
        32768,
        0x6fab49b869ae62001deac878b2667bd31bf3e28e3a2d764aa49b8d9bbdd310int,
        0x931d596de2fd10f01ddd073fd5a90a976f169c76f039bb91c4775720042d43aint,
    );
    lemma_twice(
        even_root(),
        65536,
        0x931d596de2fd10f01ddd073fd5a90a976f169c76f039bb91c4775720042d43aint,
        0x27a358499c5042bb4027fd7a5355d71b8c12c177494f0cad00a58f9769a2ee2int,
    );
    lemma_twice(
        even_root(),
        131072,
        0x27a358499c5042bb4027fd7a5355d71b8c12c177494f0cad00a58f9769a2ee2int,
        0x6fd19c17017a420ebbebc2bb08771e339ba79c0a8d2d7ab11f995e1bc2e5912int,
    );
    lemma_twice(
        even_root(),
        262144,
        0x6fd19c17017a420ebbebc2bb08771e339ba79c0a8d2d7ab11f995e1bc2e5912int,
        0xf1ded1ef6e72f5bffc02c0edd9b0675e8302a41fc782d75893a7fa1470157ceint,
    );
    lemma_twice(
        even_root(),
        524288,
        0xf1ded1ef6e72f5bffc02c0edd9b0675e8302a41fc782d75893a7fa1470157ceint,
        0x7b0c561a6148404f086204a9f36ffb0617942546750f230c893619174a57a76int,
    );
    lemma_twice(
        even_root(),
        1048576,
        0x7b0c561a6148404f086204a9f36ffb0617942546750f230c893619174a57a76int,
        0x16e73dfdad310991df5ce19ce85943e01dcb5564b6f24c799d0e470cba9d1811int,
    );
    lemma_twice(
        even_root(),
        2097152,
        0x16e73dfdad310991df5ce19ce85943e01dcb5564b6f24c799d0e470cba9d1811int,
        0x1418144d5b080fcac24cdb7649bdadf246a6cb2426e324bedb94fb05118f023aint,
    );
    lemma_twice(
        even_root(),
        4194304,
        0x1418144d5b080fcac24cdb7649bdadf246a6cb2426e324bedb94fb05118f023aint,
        0x9c532c6306b93d29678200d47c0b2a99c18d51b838eeb1d3eed4c533bb512d0int,
    );
    lemma_twice(
        even_root(),
        8388608,
        0x9c532c6306b93d29678200d47c0b2a99c18d51b838eeb1d3eed4c533bb512d0int,
        0x21082ca216cbbf4e1c6e4f4594dd508c996dfbe1174efb98b11509c6e306460bint,
    );
    lemma_twice(
        even_root(),
        16777216,
        0x21082ca216cbbf4e1c6e4f4594dd508c996dfbe1174efb98b11509c6e306460bint,
        0x2b337de1c8c14f22ec9b9e2f96afef3652627366f8170a0a948dad4ac1bd5e80int,
    );
    lemma_twice(
        even_root(),
        33554432,
        0x2b337de1c8c14f22ec9b9e2f96afef3652627366f8170a0a948dad4ac1bd5e80int,
        0x30644e72e131a029048b6e193fd841045cea24f6fd736bec231204708f703636int,
    );
    lemma_twice(
        even_root(),
        67108864,
        0x30644e72e131a029048b6e193fd841045cea24f6fd736bec231204708f703636int,
        0x30644e72e131a029b85045b68181585d2833e84879b9709143e1f593f0000000int,
    );
}

#[verifier::spinoff_prover]
#[verifier::rlimit(100)]
proof fn lemma_large_root()
    ensures
        cong(pow(large_root(), 405928799), 1),
        invertible(large_root() - 1),
{
    reveal(modulus);
    reveal(large_root);
    lemma_pow1(large_root());
    lemma_twice_more(
        large_root(),
        1,
        0x1f71dad7e4fb79ba1f708024c70892fa92776221871259f75b5e48a34129fe36int,
        0x5b0599a9a79f6fbe0315110b8e6aee4ac9744adf6bcdd3530e29df3de506131int,
    );
    lemma_twice(
        large_root(),
        3,
        0x5b0599a9a79f6fbe0315110b8e6aee4ac9744adf6bcdd3530e29df3de506131int,
        0x275ed375550f7885e0bac734880b8aa201308c4ce36545cb0ce8ea8c530ee0b1int,
    );
    lemma_twice(
        large_root(),
        6,
        0x275ed375550f7885e0bac734880b8aa201308c4ce36545cb0ce8ea8c530ee0b1int,
        0x74d7555633413e9a6916c5d37e44af1c8b504152e0774e26167f52306a5c40bint,
    );
    lemma_twice(
        large_root(),
        12,
        0x74d7555633413e9a6916c5d37e44af1c8b504152e0774e26167f52306a5c40bint,
        0xacd8c521747d1e8fa72f5311d93a2789419c950b63894dd76d117b8d3f65e2aint,
    );
    lemma_twice(
        large_root(),
        24,
        0xacd8c521747d1e8fa72f5311d93a2789419c950b63894dd76d117b8d3f65e2aint,
        0xfff14e327859ec9bd301943fcb3c0a8f791b5e7e76029e8c6dadbd0dcd3d774int,
    );
    lemma_twice(
        large_root(),
        48,
        0xfff14e327859ec9bd301943fcb3c0a8f791b5e7e76029e8c6dadbd0dcd3d774int,
        0x221562c3e3cbb25c5aca200971be3889356a1c6fcdcafb21c4a32b1cabf49153int,
    );
    lemma_twice_more(
        large_root(),
        96,
        0x221562c3e3cbb25c5aca200971be3889356a1c6fcdcafb21c4a32b1cabf49153int,
        0x14dfe523a9955828bfaa22c9ce8eb4a5c9406cc8fdd4db1222d2feccd193a8adint,
    );
    lemma_twice_more(
        large_root(),
        193,
        0x14dfe523a9955828bfaa22c9ce8eb4a5c9406cc8fdd4db1222d2feccd193a8adint,
        0x267a22547e95b436a49407a054074823b52365cd4a79cd6f4b2a164e24f6ba24int,
    );
    lemma_twice(
        large_root(),
        387,
        0x267a22547e95b436a49407a054074823b52365cd4a79cd6f4b2a164e24f6ba24int,
        0x1a03d18f6613974fe00a823a90bb8d52678af489dedc5c67a96b2a5e6d6b7164int,
    );
    lemma_twice(
        large_root(),
        774,
        0x1a03d18f6613974fe00a823a90bb8d52678af489dedc5c67a96b2a5e6d6b7164int,
        0x1a3d2908137a352a0c6a07178228a425dac9d56db5152b47bf74526b9757228fint,
    );
    lemma_twice(
        large_root(),
        1548,
        0x1a3d2908137a352a0c6a07178228a425dac9d56db5152b47bf74526b9757228fint,
        0x6f7830d024618e61b45540f5c6d7ba270038b116fb6e3abe457594a53ada05bint,
    );
    lemma_twice_more(
        large_root(),
        3096,
        0x6f7830d024618e61b45540f5c6d7ba270038b116fb6e3abe457594a53ada05bint,
        0xb8ec5c0ea083acd9586cafb4ea43f77e22f5879bed872b08cd280e0dd9782a2int,
    );
    lemma_twice_more(
        large_root(),
        6193,
        0xb8ec5c0ea083acd9586cafb4ea43f77e22f5879bed872b08cd280e0dd9782a2int,
        0xef354c326e697cdb4f65ded3e1b1768706b21828080fbba897e216a82fdc1e4int,
    );
    lemma_twice_more(
        large_root(),
        12387,
        0xef354c326e697cdb4f65ded3e1b1768706b21828080fbba897e216a82fdc1e4int,
        0xb060de6c61a587a3b871ee25b5b02c8a443d62cbe50e7075a35593afb427e08int,
    );
    lemma_twice_more(
        large_root(),
        24775,
        0xb060de6c61a587a3b871ee25b5b02c8a443d62cbe50e7075a35593afb427e08int,
        0x165482bd2bf2476af0c33a669e915b229a8e6a549de91eb14f61a7bbff13dbfaint,
    );
    lemma_twice_more(
        large_root(),
        49551,
        0x165482bd2bf2476af0c33a669e915b229a8e6a549de91eb14f61a7bbff13dbfaint,
        0x1a88d7aac664d4da19951a3b3ae4b689a4b0c156d2794d973086bdd86d366e18int,
    );
    lemma_twice_more(
        large_root(),
        99103,
        0x1a88d7aac664d4da19951a3b3ae4b689a4b0c156d2794d973086bdd86d366e18int,
        0x156e501dfd04c314bb8a3988fcf4eaf02c1f6399b549ebf424a9ded6c6656f90int,
    );
    lemma_twice(
        large_root(),
        198207,
        0x156e501dfd04c314bb8a3988fcf4eaf02c1f6399b549ebf424a9ded6c6656f90int,
        0xdfe6f3bded495639812e52c9342977040a7809f5c5ff2b15a415a1d0b97c865int,
    );
    lemma_twice_more(
        large_root(),
        396414,
        0xdfe6f3bded495639812e52c9342977040a7809f5c5ff2b15a415a1d0b97c865int,
        0xbb6fda1298f288683731117ceeadb3c292b3bfa80c8aad28a23f9c8fbbb3103int,
    );
    lemma_twice_more(
        large_root(),
        792829,
        0xbb6fda1298f288683731117ceeadb3c292b3bfa80c8aad28a23f9c8fbbb3103int,
        0x28137c20111d5bca5449d5a49f1a150fcc3fbacf7c88a1fda518eb8b63505378int,
    );
    lemma_twice(
        large_root(),
        1585659,
        0x28137c20111d5bca5449d5a49f1a150fcc3fbacf7c88a1fda518eb8b63505378int,
        0x2bc4e91c670870e8bd004966e494b0fe91fe31caacd207a44ce78bd0587f7eb7int,
    );
    lemma_twice_more(
        large_root(),
        3171318,
        0x2bc4e91c670870e8bd004966e494b0fe91fe31caacd207a44ce78bd0587f7eb7int,
        0x1fe7580f59c29399be1ee48c176b71c28f0fff648a64d614dbf43c36496046bdint,
    );
    lemma_twice(
        large_root(),
        6342637,
        0x1fe7580f59c29399be1ee48c176b71c28f0fff648a64d614dbf43c36496046bdint,
        0x2709fc47053f4f7931be7aba13e4b7fb36c33f1eb0f704bde0c6d570562a18ebint,
    );
    lemma_twice_more(
        large_root(),
        12685274,
        0x2709fc47053f4f7931be7aba13e4b7fb36c33f1eb0f704bde0c6d570562a18ebint,
        0x2bf0d69e9e880221b2a2b2692b7e822c02ebb187e20876159e390fa3cd386e8aint,
    );
    lemma_twice_more(
        large_root(),
        25370549,
        0x2bf0d69e9e880221b2a2b2692b7e822c02ebb187e20876159e390fa3cd386e8aint,
        0x1cbca1dda45466cc0879479b1776a2f84502b97e188a43d2f1e36933faaf328dint,
    );
    lemma_twice_more(
        large_root(),
        50741099,
        0x1cbca1dda45466cc0879479b1776a2f84502b97e188a43d2f1e36933faaf328dint,
        0x1c7a5a2cace60def3b30c168bc0db4456e31b72f21175d67614f03c97e10e2adint,
    );
    lemma_twice_more(
        large_root(),
        101482199,
        0x1c7a5a2cace60def3b30c168bc0db4456e31b72f21175d67614f03c97e10e2adint,
        0x1dbcc7a3b6ddd597960ce080ee0c513f4972fedd342062289ea1ed976571d545int,
    );
    lemma_twice_more(
        large_root(),
        202964399,
        0x1dbcc7a3b6ddd597960ce080ee0c513f4972fedd342062289ea1ed976571d545int,
        0x1int,
    );
    lemma_inverse_from(
        large_root() - 1,
        0x1a3cedaebd80ff06719ef42c967c3d9b9d4141d2c218a2c397c74553d289a00fint,
    );
}

#[verifier::spinoff_prover]
#[verifier::rlimit(100)]
proof fn lemma_small_root()
    ensures
        cong(pow(small_root(), 983), 1),
        invertible(small_root() - 1),
{
    reveal(modulus);
    reveal(small_root);
    lemma_pow1(small_root());
    lemma_twice_more(
        small_root(),
        1,
        0xfc1abc3a37f4ea9a023d3913ca1228ecfb449e0ec043785e19b9f1a7ce6a5d8int,
        0x1bb5470ecb62e9de6e690bd92a1fc67df4f3ea76ac0615014a15793b9fd94b26int,
    );
    lemma_twice_more(
        small_root(),
        3,
        0x1bb5470ecb62e9de6e690bd92a1fc67df4f3ea76ac0615014a15793b9fd94b26int,
        0x3044bf240705bd413090f7d2af805393c47bf08e0e5bc6b7639c7b839cd472eaint,
    );
    lemma_twice_more(
        small_root(),
        7,
        0x3044bf240705bd413090f7d2af805393c47bf08e0e5bc6b7639c7b839cd472eaint,
        0x1006e9f5424e15c8f44b175d3c8ec15448a9f6cf0e92574d4a80a8116fb64118int,
    );
    lemma_twice(
        small_root(),
        15,
        0x1006e9f5424e15c8f44b175d3c8ec15448a9f6cf0e92574d4a80a8116fb64118int,
        0xdc40228bbb64eb4e4784b5ee7ad09b9d4736c81ad505d3de1ec216cf0745e67int,
    );
    lemma_twice_more(
        small_root(),
        30,
        0xdc40228bbb64eb4e4784b5ee7ad09b9d4736c81ad505d3de1ec216cf0745e67int,
        0x1ac55ba824bbe39d29676f59dace7c1efdf55c56be0399f3e6e95e2a3d3e61int,
    );
    lemma_twice(
        small_root(),
        61,
        0x1ac55ba824bbe39d29676f59dace7c1efdf55c56be0399f3e6e95e2a3d3e61int,
        0x1d5c21c4c77ec8fad5e35d5a5ff6def6ddb096fdc4ed756b6357e275a509425cint,
    );
    lemma_twice_more(
        small_root(),
        122,
        0x1d5c21c4c77ec8fad5e35d5a5ff6def6ddb096fdc4ed756b6357e275a509425cint,
        0x289d6da53e49d16a8db6c3257682e7fe99bb5fb7ec2d011f2a7094fca1fda752int,
    );
    lemma_twice_more(
        small_root(),
        245,
        0x289d6da53e49d16a8db6c3257682e7fe99bb5fb7ec2d011f2a7094fca1fda752int,
        0x28d10e78c4f0074a34e04771967af79a4e545d01a510ef9f3910ddc14ee654adint,
    );
    lemma_twice_more(
        small_root(),
        491,
        0x28d10e78c4f0074a34e04771967af79a4e545d01a510ef9f3910ddc14ee654adint,
        0x1int,
    );
    lemma_inverse_from(
        small_root() - 1,
        0x4d385d406ab9e4054cf9078b38f4ac93bd4e4622e354ce94a1d975ed5034fc5int,
    );
}

/// A common divisor of two numbers, as a combination of them.
pub ghost struct Combination {
    pub divisor: int,
    pub left: int,
    pub right: int,
}

/// The greatest common divisor of two numbers is a combination of them.
proof fn lemma_combination(a: int, b: int) -> (c: Combination)
    requires
        0 < a,
        0 <= b,
    ensures
        0 < c.divisor,
        c.divisor == c.left * a + c.right * b,
        a % c.divisor == 0,
        b % c.divisor == 0,
    decreases b,
{
    if b == 0 {
        assert(a % a == 0) by {
            lemma_mod_self_0(a);
        }
        assert(0int % a == 0) by {
            lemma_small_mod(0, a as nat);
        }
        assert(1 * a + 0 * b == a);
        Combination { divisor: a, left: 1, right: 0 }
    } else {
        let r = a % b;
        let q = a / b;
        lemma_mod_bound(a, b);
        lemma_fundamental_div_mod(a, b);
        let c = lemma_combination(b, r);
        let g = c.divisor;
        let (u, v) = (c.left, c.right);
        assert(u * b + v * r == v * a + (u - v * q) * b) by (nonlinear_arith)
            requires
                a == b * q + r,
        ;
        lemma_fundamental_div_mod(b, g);
        lemma_fundamental_div_mod(r, g);
        let (s, t) = (b / g, r / g);
        assert(a == g * (s * q + t)) by (nonlinear_arith)
            requires
                a == b * q + r,
                b == g * s,
                r == g * t,
        ;
        lemma_mod_multiples_basic(s * q + t, g);
        assert(g * (s * q + t) == (s * q + t) * g) by (nonlinear_arith);
        Combination { divisor: g, left: v, right: u - v * q }
    }
}

/// A number that divides a product, and of which a combination with the first factor is one,
/// divides the second factor.
proof fn lemma_divides(a: int, b: int, c: int, u: int, v: int)
    requires
        a > 0,
        (b * c) % a == 0,
        u * a + v * b == 1,
    ensures
        c % a == 0,
{
    lemma_fundamental_div_mod(b * c, a);
    let q = (b * c) / a;
    assert(c == a * (u * c + v * q)) by (nonlinear_arith)
        requires
            b * c == a * q,
            u * a + v * b == 1,
    ;
    assert(a * (u * c + v * q) == (u * c + v * q) * a) by (nonlinear_arith);
    lemma_mod_multiples_basic(u * c + v * q, a);
}

/// A number has no divisors but one and itself.
pub open spec fn is_prime(p: int) -> bool {
    &&& p > 1
    &&& forall|g: int| 1 < g < p ==> #[trigger] (p % g) != 0
}

/// A number without small divisors has none but one and itself.
proof fn lemma_prime(p: int, root: int)
    requires
        1 < p < (root + 1) * (root + 1),
        1 < root,
        forall|g: int| 1 < g <= root ==> #[trigger] (p % g) != 0,
    ensures
        is_prime(p),
{
    assert forall|g: int| 1 < g < p implies #[trigger] (p % g) != 0 by {
        if p % g == 0 && g > root {
            let h = p / g;
            lemma_fundamental_div_mod(p, g);
            assert(p == h * g) by (nonlinear_arith)
                requires
                    p == g * h,
            ;
            assert(1 < h <= root) by (nonlinear_arith)
                requires
                    p == g * h,
                    root < g < p,
                    0 < root,
                    p < (root + 1) * (root + 1),
            ;
            lemma_mod_multiples_basic(g, h);
            assert(g * h == p);
        }
    }
}

#[verifier::spinoff_prover]
proof fn lemma_primes()
    ensures
        is_prime(large_prime()),
        is_prime(small_prime()),
{
    assert forall|g: int| 1 < g <= 20147 implies #[trigger] (405928799int % g) != 0 by {
        let d = g as u32;
        assert(405928799u32 % d != 0) by (bit_vector)
            requires
                1 < d <= 20147,
        ;
    }
    lemma_prime(405928799, 20147);
    assert forall|g: int| 1 < g <= 31 implies #[trigger] (983int % g) != 0 by {
        let d = g as u32;
        assert(983u32 % d != 0) by (bit_vector)
            requires
                1 < d <= 31,
        ;
    }
    lemma_prime(983, 31);
}

/// An element whose power to a prime is one, and which is not one itself, has no other powers
/// that are one than those to multiples of the prime.
proof fn lemma_prime_order(x: int, p: int, t: int, d: int)
    requires
        d > 0,
        is_prime(p),
        t > 0,
        same(pow(x, p as nat), 1, d),
        same(pow(x, t as nat), 1, d),
        !same(x, 1, d),
    ensures
        t % p == 0,
{
    let c = lemma_combination(p, t);
    let g = c.divisor;
    assert(p % g == 0 && t % g == 0);
    if g > p {
        lemma_small_mod(p as nat, g as nat);
    }
    if g == 1 && t % p != 0 {
        let u = c.right % p;
        let k = c.right / p;
        lemma_fundamental_div_mod(c.right, p);
        lemma_mod_bound(c.right, p);
        let w = -(c.left + k * t);
        assert(u * t == 1 + w * p) by (nonlinear_arith)
            requires
                1 == c.left * p + c.right * t,
                c.right == p * k + u,
                w == -(c.left + k * t),
        ;
        assert(w >= 0) by (nonlinear_arith)
            requires
                u * t == 1 + w * p,
                u >= 0,
                t > 0,
                p > 1,
        ;
        assert(u * t == t * u) by (nonlinear_arith);
        assert(w * p == p * w) by (nonlinear_arith);
        lemma_multiple_one(x, t as nat, u as nat, d);
        lemma_multiple_one(x, p as nat, w as nat, d);
        let e = (p * w) as nat;
        assert(pow(x, (t * u) as nat) == pow(x, 1) * pow(x, e)) by {
            lemma_pow_adds(x, 1, e);
        }
        lemma_pow1(x);
        lemma_same_mul(x, x, pow(x, e), 1, d);
        assert(x * 1 == x);
        assert(false);
    }
}

proof fn lemma_minus_one(o: nat)
    ensures
        o % 2 == 1 ==> pow(-1, o) == -1,
        o % 2 == 0 ==> pow(-1, o) == 1,
    decreases o,
{
    reveal(pow);
    if o > 0 {
        lemma_minus_one((o - 1) as nat);
    }
}

proof fn lemma_two_powers()
    ensures
        pow(2, 27) == 134217728,
        pow(2, 28) == 268435456,
{
    assert(pow(2, 9) == 512) by {
        reveal(pow);
        reveal_with_fuel(pow, 10);
    }
    lemma_pow_adds(2, 9, 9);
    lemma_pow_adds(2, 18, 9);
    lemma_pow_adds(2, 27, 1);
    lemma_pow1(2);
}

/// An element whose power to `2^27` is minus one has no other powers that are one than those
/// to multiples of `2^28`.
proof fn lemma_even_order(x: int, t: int, d: int, k: nat)
    requires
        d > 2,
        t > 0,
        k <= 28,
        same(pow(x, 134217728), -1, d),
        same(pow(x, t as nat), 1, d),
    ensures
        pow(2, k) > 0,
        t % pow(2, k) == 0,
    decreases k,
{
    lemma_pow_positive(2, k);
    if k == 0 {
        lemma_pow0(2);
    } else {
        let j = (k - 1) as nat;
        lemma_even_order(x, t, d, j);
        let a = pow(2, j);
        let o = t / a;
        lemma_fundamental_div_mod(t, a);
        assert(pow(2, k) == 2 * a) by {
            reveal(pow);
        }
        assert(o > 0) by (nonlinear_arith)
            requires
                t == a * o,
                t > 0,
                a > 0,
        ;
        if o % 2 == 1 {
            let b = pow(2, (27 - j) as nat);
            lemma_pow_positive(2, (27 - j) as nat);
            lemma_pow_adds(2, j, (27 - j) as nat);
            lemma_two_powers();
            assert(a * b == 134217728);
            lemma_multiple_one(x, t as nat, b as nat, d);
            assert(t * b == 134217728 * o) by (nonlinear_arith)
                requires
                    t == a * o,
                    a * b == 134217728,
            ;
            lemma_pow_multiplies(x, 134217728, o as nat);
            lemma_same_pow(pow(x, 134217728), -1, o as nat, d);
            lemma_minus_one(o as nat);
            assert(same(1, -1, d));
            lemma_small_mod(1, d as nat);
            lemma_mod_add_multiples_vanish(-1, d);
            lemma_small_mod((d - 1) as nat, d as nat);
            assert(false);
        }
        let h = o / 2;
        assert(t == h * (2 * a)) by (nonlinear_arith)
            requires
                t == a * o,
                o == 2 * h,
        ;
        lemma_mod_multiples_basic(h, 2 * a);
    }
}

/// What is congruent modulo a number is congruent modulo its divisors.
proof fn lemma_same_divisor(a: int, b: int, n: int, d: int)
    requires
        n > 0,
        d > 0,
        n % d == 0,
        same(a, b, n),
    ensures
        same(a, b, d),
{
    lemma_fundamental_div_mod(n, d);
    lemma_fundamental_div_mod(a, n);
    lemma_fundamental_div_mod(b, n);
    let q = n / d;
    let (x, y) = (a / n, b / n);
    assert(a == d * (q * (x - y)) + b) by (nonlinear_arith)
        requires
            n == d * q,
            a == n * x + a % n,
            b == n * y + b % n,
            a % n == b % n,
    ;
    lemma_mod_multiples_vanish(q * (x - y), b, d);
}

/// The product of the three elements.
pub open spec fn joint_root() -> int {
    even_root() * large_root() * small_root()
}

/// The three elements modulo a divisor of the order of the field.
proof fn lemma_roots(d: int)
    requires
        1 < d,
        modulus() % d == 0,
    ensures
        2 < d,
        same(pow(even_root(), 134217728), -1, d),
        same(pow(even_root(), 268435456), 1, d),
        same(pow(large_root(), 405928799), 1, d),
        same(pow(small_root(), 983), 1, d),
        !same(large_root(), 1, d),
        !same(small_root(), 1, d),
{
    let m = modulus();
    lemma_modulus();
    assert(m % 2 == 1) by {
        reveal(modulus);
    }
    lemma_even_root();
    lemma_large_root();
    lemma_small_root();
    lemma_same_divisor(pow(even_root(), 134217728), -1, m, d);
    lemma_same_divisor(pow(large_root(), 405928799), 1, m, d);
    lemma_same_divisor(pow(small_root(), 983), 1, m, d);
    lemma_pow_multiplies(even_root(), 134217728, 2);
    lemma_same_pow(pow(even_root(), 134217728), -1, 2, d);
    lemma_minus_one(2);
    lemma_not_one(large_root(), d);
    lemma_not_one(small_root(), d);
}

/// An element that differs from one by something invertible is not one modulo a divisor.
proof fn lemma_not_one(x: int, d: int)
    requires
        1 < d,
        modulus() % d == 0,
        invertible(x - 1),
    ensures
        !same(x, 1, d),
{
    lemma_modulus();
    if same(x, 1, d) {
        lemma_inverse_of(x - 1);
        let y = inverse_of(x - 1);
        lemma_same_divisor((x - 1) * y, 1, modulus(), d);
        lemma_sub_mod_noop(x, 1, d);
        lemma_sub_mod_noop(1, 1, d);
        lemma_same_mul(x - 1, 0, y, y, d);
        assert(0 * y == 0);
        lemma_small_mod(1, d as nat);
        lemma_small_mod(0, d as nat);
    }
}

/// A power of a product of three elements that is one, where two of the elements drop out.
proof fn lemma_drop(x: int, y: int, z: int, b: nat, c: nat, m: nat, d: int)
    requires
        d > 0,
        same(pow(x * y * z, m), 1, d),
        same(pow(y, b), 1, d),
        same(pow(z, c), 1, d),
    ensures
        same(pow(x, m * (b * c)), 1, d),
{
    let e = m * (b * c);
    lemma_multiple_one(x * y * z, m, b * c, d);
    lemma_multiple_one(y, b, m * c, d);
    lemma_multiple_one(z, c, m * b, d);
    assert(b * (m * c) == e) by (nonlinear_arith)
        requires
            e == m * (b * c),
    ;
    assert(c * (m * b) == e) by (nonlinear_arith)
        requires
            e == m * (b * c),
    ;
    lemma_pow_distributes(x * y, z, e);
    lemma_pow_distributes(x, y, e);
    let (p, q, r) = (pow(x, e), pow(y, e), pow(z, e));
    lemma_same_mul(p, p, q, 1, d);
    assert(p * 1 == p);
    lemma_same_mul(p * q, p, r, 1, d);
}

/// A power of the product of the three elements that is one modulo a divisor.
#[verifier::rlimit(30)]
proof fn lemma_joint_order(m: int, d: int)
    requires
        1 < d,
        modulus() % d == 0,
        m > 0,
        same(pow(joint_root(), m as nat), 1, d),
    ensures
        m % joint_order() == 0,
{
    let (x, y, z) = (even_root(), large_root(), small_root());
    lemma_roots(d);
    lemma_primes();
    assert(x * y * z == y * x * z && x * y * z == z * x * y) by (nonlinear_arith);
    lemma_drop(x, y, z, 405928799, 983, m as nat, d);
    lemma_drop(y, x, z, 268435456, 983, m as nat, d);
    lemma_drop(z, x, y, 268435456, 405928799, m as nat, d);
    let (a, b, c) = (m * 399028009417, m * 263872053248, m * 108965682263097344);
    lemma_even_order(x, a, d, 28);
    lemma_two_powers();
    lemma_prime_order(y, 405928799, b, d);
    lemma_prime_order(z, 983, c, d);
    assert(a == 399028009417 * m && b == 263872053248 * m && c == 108965682263097344 * m);
    lemma_divides(268435456, 399028009417, m, -97729650373, 65745017);
    lemma_divides(405928799, 263872053248, m, 94692122783, -145670067);
    lemma_divides(983, 108965682263097344, m, -12415215069650969, 112);
    lemma_fundamental_div_mod(m, 268435456);
    let q = m / 268435456;
    lemma_divides(405928799, 268435456, q, -65593185, 99190186);
    lemma_fundamental_div_mod(q, 405928799);
    let s = q / 405928799;
    assert(m == 108965682263097344 * s);
    lemma_divides(983, 108965682263097344, s, -12415215069650969, 112);
    lemma_fundamental_div_mod(s, 983);
    assert(m == (s / 983) * 107113265664624689152);
    lemma_mod_multiples_basic(s / 983, 107113265664624689152);
}

/// A divisor of the order of the field is one or larger than a word.
proof fn lemma_divisor(d: int)
    requires
        1 < d,
        modulus() % d == 0,
    ensures
        joint_order() <= d,
{
    let y = joint_root();
    let n = joint_order() as nat;
    let s = Seq::new(n, |i: int| pow(y, i as nat) % d);
    assert(same(pow(y, n), 1, d)) by {
        lemma_roots(d);
        let (a, b, c) = (even_root(), large_root(), small_root());
        lemma_multiple_one(a, 268435456, 399028009417, d);
        lemma_multiple_one(b, 405928799, 263872053248, d);
        lemma_multiple_one(c, 983, 108965682263097344, d);
        lemma_pow_distributes(a * b, c, n);
        lemma_pow_distributes(a, b, n);
        lemma_same_mul(pow(a, n), 1, pow(b, n), 1, d);
        lemma_same_mul(pow(a, n) * pow(b, n), 1, pow(c, n), 1, d);
    }
    assert forall|i: int, j: int| 0 <= i < j < n implies s[i] != s[j] by {
        if s[i] == s[j] {
            let m = j - i;
            let k = (n - i) as nat;
            lemma_same_mul(pow(y, i as nat), pow(y, j as nat), pow(y, k), pow(y, k), d);
            lemma_pow_adds(y, i as nat, k);
            lemma_pow_adds(y, j as nat, k);
            lemma_pow_adds(y, n, m as nat);
            let p = pow(y, m as nat);
            lemma_same_mul(pow(y, n), 1, p, p, d);
            assert(1 * p == p);
            lemma_joint_order(m, d);
            lemma_small_mod(m as nat, n);
        }
    }
    assert(s.no_duplicates());
    s.unique_seq_to_set();
    lemma_int_range(0, d);
    assert(s.to_set().subset_of(set_int_range(0, d))) by {
        assert forall|v: int| s.to_set().contains(v) implies set_int_range(0, d).contains(v) by {
            let i = choose|i: int| 0 <= i < s.len() && s[i] == v;
            lemma_mod_bound(pow(y, i as nat), d);
        }
    }
    lemma_len_subset(s.to_set(), set_int_range(0, d));
}

/// Numbers other than zero that fit in a word, and their opposites, have inverses.
pub proof fn law_word_invertible(k: int)
    requires
        0 < k <= u64::MAX || 0 < -k <= u64::MAX,
    ensures
        invertible(k),
{
    let m = modulus();
    let a = if k > 0 {
        k
    } else {
        -k
    };
    lemma_modulus();
    let c = lemma_combination(a, m);
    let g = c.divisor;
    if g > 1 {
        lemma_divisor(g);
        lemma_small_mod(a as nat, g as nat);
    }
    let u = if k > 0 {
        c.left
    } else {
        -c.left
    };
    assert(c.left * a == k * u) by (nonlinear_arith)
        requires
            k > 0 && a == k && u == c.left || k <= 0 && a == -k && u == -c.left,
    ;
    assert(c.right * m == m * c.right) by (nonlinear_arith);
    lemma_mod_multiples_vanish(c.right, k * u, m);
    lemma_inverse_from(k, u);
}

} // verus!
