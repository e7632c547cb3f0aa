# clade

Decompression of CLADE-compressed memory regions of Qualcomm modem firmware
images, verified with Verus.

Each program directory of an image has a high and a low region. A high line
is 64 bytes of the image: either a stream of compressed words or 15 stored
words and a word from an exception table. A low line is two 32-byte blocks
stored bit-reversed, whose payloads and exception bytes form a stream that
is decoded the same way. Compressed words pick one of three dictionaries and
put the missing bits back into the dictionary word.

Layout of `src/`:

- `stream.rs`, `bits.rs`: the model of a stream of 32-bit words as one
  number, read least significant bit first, and lemmas on shifts and masks.
- `bit_reader.rs`, `bit_writer.rs`: reading and writing such streams.
- `decode.rs`: the word decoder (`clade_uncompress`) and its model.
- `convert.rs`: bytes and words, through `bytemuck` and std.
- `lines.rs`: decompression of one high or low line.
- `types.rs`, `config.rs`: program directories and the region layout.
- `read.rs`: `clade_read`, serving read requests from the regions.
- `image.rs`: decompressing a whole region of an image described by a
  configuration file.

`app/` is the command line program: it reads the image and its TOML
description and writes the decompressed regions to files.
