# easydes

DES and triple DES in ECB and CBC mode, with zero padding, written in Verus.
Every function of the library is proved against a mathematical statement of
the Data Encryption Standard (FIPS 46-3).

- `src/tables.rs`: the permutation tables, rotations and S-boxes of the standard.
- `src/bits.rs`: byte strings as bit strings, and the bit-level lemmas.
- `src/model.rs`: DES, its key schedule, ECB, CBC and EDE triple DES as spec functions.
- `src/easydes.rs`: the executable cipher: key table, rounds, blocks and modes.
- `src/laws.rs`: what holds for every input, such as decryption undoing encryption.
- `src/cli.rs`: the decisions of the command-line tool (IV requirement, hex key and IV).
- `app/main.rs`: the command-line tool: arguments, files.

Usage of the tool:

    easydes --key 133457799BBCDFF1 --iv 0000000000000000 -m CBC -e --infile in.txt --outfile out.enc
