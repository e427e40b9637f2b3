# par2-rs

Creation, verification and repair of PAR2 recovery sets, with proofs.

A PAR2 set protects files with Reed-Solomon codes over GF(2^16). The library is written in Verus: what
each function does is stated in its contract, and the contracts are proved. Among what is proved:

- the field laws, the order of its generator, and that every way to multiply, by tables, by carry-less
  products or in the shuffled layout, gives the product of the field;
- that recovery blocks are the weighted sums of the data blocks, and that elimination restores missing
  blocks as they were;
- that what is written into PAR2 files is what is read back, packet by packet and volume by volume;
- that verification finds just the blocks whose checksums are wrong;
- that a created set, once loaded, describes the files it was made from in the order in which their data
  blocks are numbered, if no two files have the same ID;
- that repair gives back damaged and missing files as they were, whatever the size of chunks, if the
  recovery blocks and the blocks that are not damaged are unchanged, there are at least as many recovery
  blocks as damaged blocks, and they determine the damaged blocks. With consecutive exponents and at most
  32768 data blocks they always do;
- that repair gives back nothing that does not pass verification, and that after a repair verification
  finds nothing damaged or missing.

MD5 and CRC32 come from the crates `md-5` and `crc32fast`; how paths are taken apart and how invalid
UTF-8 is replaced comes from the standard library. These are the only parts that are trusted.

## Layout

- `src/` is the library. It works on the contents of files; `src/lib.rs` lists its modules.
- `app/` is the command line around it: it reads and writes files, finds out what the machine offers, and
  calls the library.
- `tests/` runs the library.

## Usage

    par2 create -r 10 file1.bin file2.bin
    par2 create -r 10 -s file1.bin file2.bin
    par2 repair myfiles.par2
    par2 repair myfiles.par2 verify
