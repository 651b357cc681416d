# integer

Residue number system arithmetic for emulating a "wrong" prime field inside a
"native" prime field, verified with Verus.

An integer of the wrong field is split into `NUMBER_OF_LIMBS` limbs of
`BIT_LEN_LIMB` bits, each an element of the native field. The library builds the
parameters of such a system from the two moduli and computes the witnesses that
multiplication, reduction and comparison gates assign.

- `src/big.rs`: `BigNat`, arbitrary precision naturals held as base 2^32 digits;
  every arithmetic operation calls `num_bigint`.
- `src/field.rs`: native and wrong field elements as naturals below the modulus.
- `src/limbs.rs`, `src/spec.rs`: composing and decomposing limbs, and the model.
- `src/params.rs`, `src/setup.rs`: what the parameters are, and building them.
- `src/rns.rs`: `Rns`, `Limb`, `Integer` and the witnesses of each gate.
- `src/laws.rs`: the laws that hold across functions.
- `app/lib.rs`: conversions to `num_bigint` and the debug rendering of integers.
